//! Dirty-key tracking for the background flusher.
//!
//! The tracker records which keys changed since the last flush cycle, plus
//! two running totals: entries flushed and cycles completed. The embedding
//! program guards one tracker with a mutex, shares it between the engine
//! and the flusher thread, and on each cycle takes the dirty set, snapshots
//! the current values under a read acquisition of the index, and writes
//! them to data files.

use vstd::prelude::*;
use vstd::seq_lib::*;

use crate::engine::{bytes_eq, clone_bytes, KvIndex};

verus! {

/// Tracks keys modified since the last flush, and flush statistics. Keys
/// are held without duplicates.
pub struct DirtyTracker {
    dirty_keys: Vec<Vec<u8>>,
    total_flushed: u64,
    total_cycles: u64,
}

impl DirtyTracker {
    /// The dirty keys in insertion order.
    pub closed spec fn dirty_seq(self) -> Seq<Seq<u8>> {
        self.dirty_keys@.map_values(|k: Vec<u8>| k@)
    }

    /// The set of dirty keys.
    pub open spec fn dirty_set(self) -> Set<Seq<u8>> {
        self.dirty_seq().to_set()
    }

    /// Total entries flushed since the tracker was created.
    pub closed spec fn spec_total_flushed(self) -> u64 {
        self.total_flushed
    }

    /// Total flush cycles completed since the tracker was created.
    pub closed spec fn spec_total_cycles(self) -> u64 {
        self.total_cycles
    }

    /// Well-formed: no key is held twice.
    pub open spec fn wf(self) -> bool {
        forall|i: int, j: int|
            #![trigger self.dirty_seq()[i], self.dirty_seq()[j]]
            0 <= i < j < self.dirty_seq().len() ==> self.dirty_seq()[i] != self.dirty_seq()[j]
    }

    /// Create an empty tracker.
    pub fn new() -> (r: DirtyTracker)
        ensures
            r.wf(),
            r.dirty_set() == Set::<Seq<u8>>::empty(),
            r.dirty_seq().len() == 0,
            r.spec_total_flushed() == 0,
            r.spec_total_cycles() == 0,
    {
        let r = DirtyTracker { dirty_keys: Vec::new(), total_flushed: 0, total_cycles: 0 };
        proof {
            assert(r.dirty_set() =~= Set::<Seq<u8>>::empty());
        }
        r
    }

    /// Mark a key dirty; marking an already-dirty key changes nothing.
    pub fn mark_dirty(&mut self, key: &[u8])
        requires
            old(self).wf(),
        ensures
            final(self).wf(),
            final(self).dirty_set() == old(self).dirty_set().insert(key@),
            final(self).dirty_seq().len() == old(self).dirty_seq().len() + (if old(
                self,
            ).dirty_set().contains(key@) {
                0int
            } else {
                1int
            }),
            final(self).spec_total_flushed() == old(self).spec_total_flushed(),
            final(self).spec_total_cycles() == old(self).spec_total_cycles(),
    {
        let n = self.dirty_keys.len();
        let mut i: usize = 0;
        while i < n
            invariant
                self.wf(),
                self == old(self),
                n == self.dirty_seq().len(),
                i <= n,
                forall|j: int| 0 <= j < i ==> (#[trigger] self.dirty_seq()[j]) != key@,
            decreases n - i,
        {
            if bytes_eq(self.dirty_keys[i].as_slice(), key) {
                proof {
                    assert(self.dirty_seq()[i as int] == key@);
                    assert(self.dirty_set().contains(key@));
                    assert(final(self).dirty_set() =~= old(self).dirty_set().insert(key@));
                }
                return ;
            }
            i = i + 1;
        }
        proof {
            assert(!self.dirty_set().contains(key@)) by {
                if self.dirty_set().contains(key@) {
                    let j = choose|j: int|
                        0 <= j < self.dirty_seq().len() && self.dirty_seq()[j] == key@;
                    assert(self.dirty_seq()[j] != key@);
                }
            }
        }
        let ghost olds = self.dirty_seq();
        self.dirty_keys.push(slice_to_vec_u8(key));
        proof {
            assert(self.dirty_seq() =~= olds + seq![key@]);
            assert forall|a: int, b: int|
                #![trigger self.dirty_seq()[a], self.dirty_seq()[b]]
                0 <= a < b < self.dirty_seq().len() implies self.dirty_seq()[a] != self.dirty_seq(
            )[b] by {
                if b < olds.len() {
                    assert(old(self).dirty_seq()[a] == self.dirty_seq()[a]);
                    assert(old(self).dirty_seq()[b] == self.dirty_seq()[b]);
                } else {
                    assert(self.dirty_seq()[b] == key@);
                    assert(old(self).dirty_seq()[a] == self.dirty_seq()[a]);
                    if self.dirty_seq()[a] == key@ {
                        assert(old(self).dirty_set().contains(key@));
                    }
                }
            }
            assert(self.dirty_set() =~= old(self).dirty_set().insert(key@)) by {
                assert forall|x: Seq<u8>| #[trigger]
                    self.dirty_set().contains(x) implies old(self).dirty_set().insert(
                    key@,
                ).contains(x) by {
                    let j = choose|j: int|
                        0 <= j < self.dirty_seq().len() && self.dirty_seq()[j] == x;
                    if j < olds.len() {
                        assert(old(self).dirty_seq()[j] == x);
                    }
                }
                assert forall|x: Seq<u8>| #[trigger]
                    old(self).dirty_set().insert(key@).contains(x) implies self.dirty_set(
                ).contains(x) by {
                    if x == key@ {
                        assert(self.dirty_seq()[olds.len() as int] == key@);
                    } else {
                        let j = choose|j: int|
                            0 <= j < old(self).dirty_seq().len() && old(self).dirty_seq()[j] == x;
                        assert(self.dirty_seq()[j] == x);
                    }
                }
            }
        }
    }

    /// Take every dirty key, leaving the tracker empty: the set of keys to
    /// flush in this cycle.
    pub fn take_dirty(&mut self) -> (r: Vec<Vec<u8>>)
        requires
            old(self).wf(),
        ensures
            final(self).wf(),
            final(self).dirty_set() == Set::<Seq<u8>>::empty(),
            final(self).dirty_seq().len() == 0,
            r@.map_values(|k: Vec<u8>| k@) == old(self).dirty_seq(),
            final(self).spec_total_flushed() == old(self).spec_total_flushed(),
            final(self).spec_total_cycles() == old(self).spec_total_cycles(),
    {
        let r = self.dirty_keys.split_off(0);
        proof {
            assert(old(self).dirty_keys@.skip(0) =~= old(self).dirty_keys@);
            assert(r@.map_values(|k: Vec<u8>| k@) =~= old(self).dirty_seq());
            assert(final(self).dirty_seq().len() == 0);
            assert(final(self).dirty_set() =~= Set::<Seq<u8>>::empty());
        }
        r
    }

    /// Number of keys currently dirty.
    pub fn dirty_count(&self) -> (r: usize)
        requires
            self.wf(),
        ensures
            r == self.dirty_seq().len(),
            r == self.dirty_set().len(),
            self.dirty_set().finite(),
    {
        proof {
            self.dirty_seq().unique_seq_to_set();
        }
        self.dirty_keys.len()
    }

    /// Total entries flushed since the tracker was created.
    pub fn total_flushed(&self) -> (r: u64)
        ensures
            r == self.spec_total_flushed(),
    {
        self.total_flushed
    }

    /// Total flush cycles completed.
    pub fn total_cycles(&self) -> (r: u64)
        ensures
            r == self.spec_total_cycles(),
    {
        self.total_cycles
    }

    /// Record a completed flush cycle: add the number flushed to the total
    /// and count the cycle. The totals wrap on overflow.
    pub fn record_cycle(&mut self, flushed_count: u64)
        ensures
            final(self).spec_total_flushed() == vstd::wrapping::u64_specs::wrapping_add(
                old(self).spec_total_flushed(),
                flushed_count,
            ),
            final(self).spec_total_cycles() == vstd::wrapping::u64_specs::wrapping_add(
                old(self).spec_total_cycles(),
                1,
            ),
            final(self).dirty_seq() == old(self).dirty_seq(),
    {
        self.total_flushed = self.total_flushed.wrapping_add(flushed_count);
        self.total_cycles = self.total_cycles.wrapping_add(1);
    }
}

/// Copy a byte slice into an owned vector.
fn slice_to_vec_u8(src: &[u8]) -> (r: Vec<u8>)
    ensures
        r@ == src@,
{
    vstd::slice::slice_to_vec(src)
}

/// Snapshot the current value of each dirty key from the index: the pairs
/// a flush cycle writes out. A key that is no longer present snapshots to
/// nothing and becomes a tombstone on disk.
pub fn plan_flush(index: &KvIndex, keys: &Vec<Vec<u8>>) -> (r: Vec<(Vec<u8>, Option<Vec<u8>>)>)
    requires
        index.wf(),
    ensures
        r@.len() == keys@.len(),
        forall|i: int|
            0 <= i < r@.len() ==> {
                let p = #[trigger] r@[i];
                &&& p.0@ == keys@[i]@
                &&& match p.1 {
                    Some(v) => index.as_map().contains_key(keys@[i]@) && v@ == index.as_map(
                    )[keys@[i]@],
                    None => !index.as_map().contains_key(keys@[i]@),
                }
            },
{
    let mut out: Vec<(Vec<u8>, Option<Vec<u8>>)> = Vec::new();
    let mut i: usize = 0;
    while i < keys.len()
        invariant
            index.wf(),
            i <= keys@.len(),
            out@.len() == i,
            forall|j: int|
                0 <= j < i ==> {
                    let p = #[trigger] out@[j];
                    &&& p.0@ == keys@[j]@
                    &&& match p.1 {
                        Some(v) => index.as_map().contains_key(keys@[j]@) && v@ == index.as_map(
                        )[keys@[j]@],
                        None => !index.as_map().contains_key(keys@[j]@),
                    }
                },
        decreases keys@.len() - i,
    {
        let key = clone_bytes(&keys[i]);
        let value = index.get(keys[i].as_slice());
        out.push((key, value));
        i = i + 1;
    }
    out
}

} // verus!
