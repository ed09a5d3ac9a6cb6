//! Compaction: dead-space reclamation for data files.
//!
//! Over time a data file accumulates tombstones and overwritten values.
//! Compaction scans the file, keeps only the last record of each key when
//! that record is live, and rewrites them to a fresh file. The rewrite is
//! crash-safe in the embedding program through the atomic-rename pattern:
//! write the new file beside the old one, force it durable, rename it over
//! the original, then force the directory durable.

use vstd::prelude::*;

use crate::datafile::{
    data_entries_view, data_entry_view, encode_data_record, lemma_scan_one_record,
    lemma_scanned_records_bounded, scan_records, spec_data_record, spec_scan, DataEntry,
    DataRecView,
};
use crate::engine::{bytes_eq, clone_bytes};
use crate::format::{MAX_KEY_SIZE, MAX_VALUE_SIZE};

verus! {

/// Outcome of compacting one data file.
#[derive(Debug)]
pub struct CompactionResult {
    /// Path of the compacted file.
    pub file_path: String,
    /// Number of records in the original file.
    pub original_entries: usize,
    /// Number of live records kept.
    pub live_entries: usize,
    /// Number of records dropped: tombstones and overwritten values.
    pub removed_entries: usize,
    /// Original file size in bytes.
    pub original_bytes: u64,
    /// Compacted file size in bytes.
    pub compacted_bytes: u64,
}

impl CompactionResult {
    /// Bytes reclaimed by the compaction; zero if the file grew.
    pub fn bytes_saved(&self) -> (r: u64)
        ensures
            r == if self.original_bytes >= self.compacted_bytes {
                self.original_bytes - self.compacted_bytes
            } else {
                0int
            },
    {
        if self.original_bytes >= self.compacted_bytes {
            self.original_bytes - self.compacted_bytes
        } else {
            0
        }
    }
}

/// Whether some record in `s` carries the key `k`.
pub open spec fn has_key(s: Seq<DataRecView>, k: Seq<u8>) -> bool {
    exists|i: int| 0 <= i < s.len() && (#[trigger] s[i]).key == k
}

/// The last record in `s` that carries the key `k`, if any.
pub open spec fn last_rec_for(s: Seq<DataRecView>, k: Seq<u8>) -> Option<DataRecView>
    decreases s.len(),
{
    if s.len() == 0 {
        None
    } else if s.last().key == k {
        Some(s.last())
    } else {
        last_rec_for(s.drop_last(), k)
    }
}

/// The records compaction keeps, in order: a record survives exactly when
/// no later record carries its key and it is not a tombstone.
pub open spec fn spec_compact(s: Seq<DataRecView>) -> Seq<DataRecView>
    decreases s.len(),
{
    if s.len() == 0 {
        Seq::empty()
    } else {
        let rest = spec_compact(s.skip(1));
        if has_key(s.skip(1), s[0].key) || s[0].tombstone {
            rest
        } else {
            seq![s[0]] + rest
        }
    }
}

/// A record that is the last of its key is what `last_rec_for` returns.
proof fn lemma_last_rec_at(s: Seq<DataRecView>, j: int)
    requires
        0 <= j < s.len(),
        forall|j2: int| j < j2 < s.len() ==> (#[trigger] s[j2]).key != s[j].key,
    ensures
        last_rec_for(s, s[j].key) == Some(s[j]),
    decreases s.len(),
{
    if j == s.len() - 1 {
    } else {
        assert(s.drop_last()[j] == s[j]);
        lemma_last_rec_at(s.drop_last(), j);
    }
}

/// What `last_rec_for` returns sits in `s` at some index after which its
/// key never recurs; and it exists exactly when the key occurs at all.
proof fn lemma_last_rec_index(s: Seq<DataRecView>, k: Seq<u8>)
    ensures
        last_rec_for(s, k) is Some <==> has_key(s, k),
        last_rec_for(s, k) matches Some(r) ==> exists|j: int|
            0 <= j < s.len() && #[trigger] s[j] == r && s[j].key == k && (forall|j2: int|
                j < j2 < s.len() ==> (#[trigger] s[j2]).key != k),
    decreases s.len(),
{
    if s.len() == 0 {
    } else if s.last().key == k {
        let j = s.len() - 1;
        assert(s[j] == s.last() && s[j].key == k);
    } else {
        lemma_last_rec_index(s.drop_last(), k);
        if has_key(s, k) {
            let i = choose|i: int| 0 <= i < s.len() && (#[trigger] s[i]).key == k;
            assert(i < s.len() - 1);
            assert(s.drop_last()[i].key == k);
            assert(has_key(s.drop_last(), k));
        }
        if last_rec_for(s, k) is Some {
            let r = last_rec_for(s, k).unwrap();
            let j = choose|j: int|
                0 <= j < s.drop_last().len() && #[trigger] s.drop_last()[j] == r && s.drop_last(
                )[j].key == k && (forall|j2: int|
                    j < j2 < s.drop_last().len() ==> (#[trigger] s.drop_last()[j2]).key != k);
            assert(s[j] == r && s[j].key == k);
            assert forall|j2: int| j < j2 < s.len() implies (#[trigger] s[j2]).key != k by {
                if j2 < s.len() - 1 {
                    assert(s.drop_last()[j2] == s[j2]);
                }
            }
        }
        if has_key(s.drop_last(), k) {
            let i = choose|i: int|
                0 <= i < s.drop_last().len() && (#[trigger] s.drop_last()[i]).key == k;
            assert(s[i].key == k);
        }
    }
}

/// What compaction keeps is exactly one live record per surviving key: the
/// last record of that key in the input, kept only when it is not a
/// tombstone, with its value; keys never recur in the output.
pub proof fn lemma_compact_keeps_latest(s: Seq<DataRecView>)
    ensures
        forall|i: int|
            0 <= i < spec_compact(s).len() ==> {
                let r = #[trigger] spec_compact(s)[i];
                &&& !r.tombstone
                &&& last_rec_for(s, r.key) == Some(r)
            },
        forall|k: Seq<u8>| #[trigger]
            has_key(spec_compact(s), k) <==> (last_rec_for(s, k) matches Some(r)
                && !r.tombstone),
        forall|i1: int, i2: int|
            #![trigger spec_compact(s)[i1], spec_compact(s)[i2]]
            0 <= i1 < i2 < spec_compact(s).len() ==> spec_compact(s)[i1].key != spec_compact(
                s,
            )[i2].key,
    decreases s.len(),
{
    if s.len() == 0 {
    } else {
        lemma_compact_keeps_latest(s.skip(1));
        let head = s[0];
        let rest = spec_compact(s.skip(1));
        // Records of the tail relate to the whole: last occurrences agree.
        assert forall|k: Seq<u8>| #[trigger]
            has_key(s.skip(1), k) implies last_rec_for(s, k) == last_rec_for(s.skip(1), k) by {
            lemma_last_rec_shift(s, k);
        }
        assert forall|k: Seq<u8>| !has_key(s.skip(1), k) && has_key(s, k) implies k == head.key
            && last_rec_for(s, k) == Some(head) by {
            let i = choose|i: int| 0 <= i < s.len() && (#[trigger] s[i]).key == k;
            if i > 0 {
                assert(s.skip(1)[i - 1].key == k);
            }
            assert forall|j2: int| 0 < j2 < s.len() implies (#[trigger] s[j2]).key != head.key by {
                if s[j2].key == head.key {
                    assert(s.skip(1)[j2 - 1].key == head.key);
                }
            }
            lemma_last_rec_at(s, 0);
        }
        if has_key(s.skip(1), head.key) || head.tombstone {
            assert(spec_compact(s) == rest);
            assert forall|i: int|
                0 <= i < spec_compact(s).len() implies {
                let r = #[trigger] spec_compact(s)[i];
                &&& !r.tombstone
                &&& last_rec_for(s, r.key) == Some(r)
            } by {
                let r = spec_compact(s)[i];
                assert(rest[i] == r);
                lemma_last_rec_index(s.skip(1), r.key);
                assert(has_key(s.skip(1), r.key));
            }
            if !has_key(s.skip(1), head.key) && head.tombstone {
                assert(last_rec_for(s, head.key) == Some(head)) by {
                    assert forall|j2: int| 0 < j2 < s.len() implies (#[trigger] s[j2]).key
                        != head.key by {
                        if s[j2].key == head.key {
                            assert(s.skip(1)[j2 - 1].key == head.key);
                        }
                    }
                    lemma_last_rec_at(s, 0);
                }
            }
            assert forall|k: Seq<u8>| #[trigger]
                has_key(spec_compact(s), k) implies (last_rec_for(s, k) matches Some(r)
                && !r.tombstone) by {
                assert(has_key(spec_compact(s.skip(1)), k));
                lemma_last_rec_index(s.skip(1), k);
                assert(has_key(s.skip(1), k));
            }
            assert forall|k: Seq<u8>|
                (last_rec_for(s, k) matches Some(r) && !r.tombstone) implies #[trigger] has_key(
                spec_compact(s),
                k,
            ) by {
                lemma_last_rec_index(s, k);
                if has_key(s.skip(1), k) {
                    assert(has_key(spec_compact(s.skip(1)), k));
                } else {
                    assert(k == head.key);
                }
            }
        } else {
            assert(spec_compact(s) == seq![head] + rest);
            assert forall|j2: int| 0 < j2 < s.len() implies (#[trigger] s[j2]).key != head.key by {
                if s[j2].key == head.key {
                    assert(s.skip(1)[j2 - 1].key == head.key);
                }
            }
            lemma_last_rec_at(s, 0);
            assert forall|i: int|
                0 <= i < spec_compact(s).len() implies {
                let r = #[trigger] spec_compact(s)[i];
                &&& !r.tombstone
                &&& last_rec_for(s, r.key) == Some(r)
            } by {
                if i == 0 {
                } else {
                    assert(spec_compact(s)[i] == rest[i - 1]);
                    assert(has_key(s.skip(1), rest[i - 1].key)) by {
                        lemma_last_rec_index(s.skip(1), rest[i - 1].key);
                    }
                }
            }
            assert forall|k: Seq<u8>| #[trigger]
                has_key(spec_compact(s), k) implies (last_rec_for(s, k) matches Some(r)
                && !r.tombstone) by {
                let i = choose|i: int|
                    0 <= i < spec_compact(s).len() && (#[trigger] spec_compact(s)[i]).key == k;
                if i > 0 {
                    assert(rest[i - 1].key == k);
                    assert(has_key(rest, k));
                    lemma_last_rec_index(s.skip(1), k);
                    assert(has_key(s.skip(1), k));
                }
            }
            assert forall|k: Seq<u8>|
                (last_rec_for(s, k) matches Some(r) && !r.tombstone) implies #[trigger] has_key(
                spec_compact(s),
                k,
            ) by {
                lemma_last_rec_index(s, k);
                if has_key(s.skip(1), k) {
                    assert(has_key(rest, k));
                    let i = choose|i: int| 0 <= i < rest.len() && (#[trigger] rest[i]).key == k;
                    assert(spec_compact(s)[i + 1] == rest[i]);
                } else {
                    assert(k == head.key);
                    assert(spec_compact(s)[0] == head);
                }
            }
            assert forall|i1: int, i2: int|
                #![trigger spec_compact(s)[i1], spec_compact(s)[i2]]
                0 <= i1 < i2 < spec_compact(s).len() implies spec_compact(s)[i1].key
                != spec_compact(s)[i2].key by {
                if i1 == 0 {
                    assert(spec_compact(s)[i2] == rest[i2 - 1]);
                    assert(has_key(s.skip(1), rest[i2 - 1].key)) by {
                        lemma_last_rec_index(s.skip(1), rest[i2 - 1].key);
                    }
                } else {
                    assert(spec_compact(s)[i1] == rest[i1 - 1]);
                    assert(spec_compact(s)[i2] == rest[i2 - 1]);
                }
            }
        }
    }
}

/// The last record for a key that occurs in the tail is found in the tail.
proof fn lemma_last_rec_shift(s: Seq<DataRecView>, k: Seq<u8>)
    requires
        s.len() > 0,
        has_key(s.skip(1), k),
    ensures
        last_rec_for(s, k) == last_rec_for(s.skip(1), k),
    decreases s.len(),
{
    if s.len() == 1 {
        let i = choose|i: int| 0 <= i < s.skip(1).len() && (#[trigger] s.skip(1)[i]).key == k;
        assert(false);
    } else {
        if s.last().key == k {
            assert(s.skip(1).last() == s.last());
        } else {
            let t = s.drop_last();
            assert(s.skip(1).last() == s.last());
            assert(s.skip(1).drop_last() =~= t.skip(1));
            let i = choose|i: int| 0 <= i < s.skip(1).len() && (#[trigger] s.skip(1)[i]).key == k;
            assert(i < s.skip(1).len() - 1);
            assert(t.skip(1)[i] == s.skip(1)[i]);
            assert(has_key(t.skip(1), k));
            lemma_last_rec_shift(t, k);
        }
    }
}

/// Compacting an already-compacted sequence changes nothing: with unique
/// keys and no tombstones every record is the last of its key and live, so
/// a second pass keeps them all and reports nothing removed.
pub proof fn lemma_compact_idempotent(s: Seq<DataRecView>)
    ensures
        spec_compact(spec_compact(s)) == spec_compact(s),
{
    lemma_compact_keeps_latest(s);
    lemma_compact_fixed_point(spec_compact(s));
}

/// A sequence with unique keys and no tombstones is a fixed point of
/// compaction.
proof fn lemma_compact_fixed_point(t: Seq<DataRecView>)
    requires
        forall|i: int| 0 <= i < t.len() ==> !(#[trigger] t[i]).tombstone,
        forall|i1: int, i2: int|
            #![trigger t[i1], t[i2]]
            0 <= i1 < i2 < t.len() ==> t[i1].key != t[i2].key,
    ensures
        spec_compact(t) == t,
    decreases t.len(),
{
    if t.len() == 0 {
        assert(spec_compact(t) =~= t);
    } else {
        assert(!has_key(t.skip(1), t[0].key)) by {
            if has_key(t.skip(1), t[0].key) {
                let i = choose|i: int|
                    0 <= i < t.skip(1).len() && (#[trigger] t.skip(1)[i]).key == t[0].key;
                assert(t[i + 1].key == t[0].key);
            }
        }
        assert forall|i1: int, i2: int|
            #![trigger t.skip(1)[i1], t.skip(1)[i2]]
            0 <= i1 < i2 < t.skip(1).len() implies t.skip(1)[i1].key != t.skip(1)[i2].key by {
            assert(t.skip(1)[i1] == t[i1 + 1]);
            assert(t.skip(1)[i2] == t[i2 + 1]);
        }
        assert forall|i: int| 0 <= i < t.skip(1).len() implies !(#[trigger] t.skip(
            1,
        )[i]).tombstone by {
            assert(t.skip(1)[i] == t[i + 1]);
        }
        lemma_compact_fixed_point(t.skip(1));
        assert(spec_compact(t) =~= t);
    }
}

/// Keep only the last live record of each key, in order of the survivors.
pub fn compact_records(entries: &Vec<DataEntry>) -> (live: Vec<DataEntry>)
    ensures
        data_entries_view(live@) == spec_compact(data_entries_view(entries@)),
{
    let ghost es = data_entries_view(entries@);
    let n = entries.len();
    let mut out: Vec<DataEntry> = Vec::new();
    let mut j: usize = 0;
    while j < n
        invariant
            n == entries@.len(),
            j <= n,
            es == data_entries_view(entries@),
            data_entries_view(out@) + spec_compact(es.skip(j as int)) == spec_compact(es.skip(0)),
        decreases n - j,
    {
        let ghost suffix = es.skip(j as int);
        let entry = &entries[j];

        // Is a later record carrying the same key?
        let mut recurs = false;
        let mut j2: usize = j + 1;
        loop
            invariant_except_break
                !recurs,
            invariant
                j < n,
                n == entries@.len(),
                es == data_entries_view(entries@),
                j + 1 <= j2 <= n,
                data_entry_view(*entry) == es[j as int],
                forall|x: int| j < x < j2 ==> (#[trigger] es[x]).key != es[j as int].key,
            ensures
                recurs == has_key(es.skip(j as int).skip(1), es[j as int].key),
            decreases n - j2,
        {
            if j2 >= n {
                proof {
                    assert(!has_key(es.skip(j as int).skip(1), es[j as int].key)) by {
                        if has_key(es.skip(j as int).skip(1), es[j as int].key) {
                            let i = choose|i: int|
                                0 <= i < es.skip(j as int).skip(1).len() && (#[trigger] es.skip(
                                    j as int,
                                ).skip(1)[i]).key == es[j as int].key;
                            assert(es.skip(j as int).skip(1) =~= es.skip(j + 1));
                            assert(es.skip(j + 1)[i] == es[j + 1 + i]);
                        }
                    }
                }
                break;
            }
            if bytes_eq(entries[j2].key.as_slice(), entry.key.as_slice()) {
                recurs = true;
                proof {
                    assert(es[j2 as int] == data_entry_view(entries@[j2 as int]));
                    assert(es[j as int] == data_entry_view(entries@[j as int]));
                    assert(es.skip(j as int).skip(1) =~= es.skip(j + 1));
                    assert(es.skip(j + 1)[j2 - j - 1] == es[j2 as int]);
                    assert(has_key(es.skip(j as int).skip(1), es[j as int].key));
                }
                break;
            }
            proof {
                assert(es[j2 as int] == data_entry_view(entries@[j2 as int]));
                assert(es[j as int] == data_entry_view(entries@[j as int]));
            }
            j2 = j2 + 1;
        }

        if !recurs && !entry.is_tombstone {
            let kept = DataEntry {
                key: clone_bytes(&entry.key),
                value: clone_bytes(&entry.value),
                offset: entry.offset,
                is_tombstone: false,
            };
            proof {
                assert(data_entry_view(kept) == suffix[0]);
            }
            out.push(kept);
        }
        j = j + 1;
        proof {
            assert(suffix.skip(1) =~= es.skip(j as int));
            assert(suffix[0] == es[j - 1]);
            if !recurs && !es[j - 1].tombstone {
                assert(data_entries_view(out@) =~= data_entries_view(out@.drop_last()) + seq![
                    suffix[0],
                ]);
                assert(data_entries_view(out@) + spec_compact(es.skip(j as int)) =~= spec_compact(
                    es.skip(0),
                ));
            }
        }
    }
    proof {
        assert(es.skip(n as int) =~= Seq::<DataRecView>::empty());
        assert(spec_compact(es.skip(n as int)) =~= Seq::<DataRecView>::empty());
        assert(data_entries_view(out@) =~= data_entries_view(out@) + spec_compact(
            es.skip(n as int),
        ));
        assert(es.skip(0) =~= es);
    }
    out
}

/// Compaction never keeps more records than it was given.
pub proof fn lemma_compact_len_le(s: Seq<DataRecView>)
    ensures
        spec_compact(s).len() <= s.len(),
    decreases s.len(),
{
    if s.len() > 0 {
        lemma_compact_len_le(s.skip(1));
    }
}

/// The bytes of a sequence of records, concatenated in order.
pub open spec fn records_bytes(s: Seq<DataRecView>) -> Seq<u8>
    decreases s.len(),
{
    if s.len() == 0 {
        Seq::empty()
    } else {
        spec_data_record(s[0].key, s[0].value, s[0].tombstone) + records_bytes(s.skip(1))
    }
}

/// Serialize live records into the bytes of a fresh data file, in order.
pub fn encode_entries(live: &Vec<DataEntry>) -> (r: Vec<u8>)
    requires
        forall|i: int|
            0 <= i < live@.len() ==> {
                let e = #[trigger] data_entries_view(live@)[i];
                &&& !e.tombstone
                &&& e.key.len() <= MAX_KEY_SIZE
                &&& e.value.len() <= MAX_VALUE_SIZE
            },
    ensures
        r@ == records_bytes(data_entries_view(live@)),
{
    let ghost lsv = data_entries_view(live@);
    let mut buf: Vec<u8> = Vec::new();
    let mut i: usize = 0;
    proof {
        assert(lsv.skip(0) =~= lsv);
    }
    while i < live.len()
        invariant
            i <= live@.len(),
            lsv == data_entries_view(live@),
            forall|x: int|
                0 <= x < live@.len() ==> {
                    let e = #[trigger] data_entries_view(live@)[x];
                    &&& !e.tombstone
                    &&& e.key.len() <= MAX_KEY_SIZE
                    &&& e.value.len() <= MAX_VALUE_SIZE
                },
            buf@ + records_bytes(lsv.skip(i as int)) == records_bytes(lsv),
        decreases live@.len() - i,
    {
        let e = &live[i];
        proof {
            assert(data_entry_view(*e) == lsv[i as int]);
        }
        match encode_data_record(e.key.as_slice(), e.value.as_slice(), false) {
            Ok(mut b) => {
                proof {
                    assert(lsv.skip(i as int)[0] == lsv[i as int]);
                    assert(lsv.skip(i as int).skip(1) =~= lsv.skip(i + 1));
                    assert(records_bytes(lsv.skip(i as int)) == spec_data_record(
                        lsv[i as int].key,
                        lsv[i as int].value,
                        lsv[i as int].tombstone,
                    ) + records_bytes(lsv.skip(i + 1)));
                }
                buf.append(&mut b);
                proof {
                    assert(buf@ + records_bytes(lsv.skip(i + 1)) =~= records_bytes(lsv));
                }
            },
            Err(_) => {
                proof {
                    assert(false);
                }
            },
        }
        i = i + 1;
    }
    proof {
        assert(lsv.skip(live@.len() as int) =~= Seq::<DataRecView>::empty());
        assert(buf@ =~= records_bytes(lsv));
    }
    buf
}

/// Scanning the bytes that a sequence of live, in-cap records serializes
/// to yields exactly those records back, in order.
pub proof fn lemma_scan_of_encoded(ls: Seq<DataRecView>, base: int)
    requires
        forall|i: int|
            0 <= i < ls.len() ==> {
                let e = #[trigger] ls[i];
                &&& !e.tombstone
                &&& e.key.len() <= MAX_KEY_SIZE
                &&& e.value.len() <= MAX_VALUE_SIZE
            },
    ensures
        spec_scan(records_bytes(ls), base).len() == ls.len(),
        forall|i: int|
            0 <= i < ls.len() ==> {
                let r = #[trigger] spec_scan(records_bytes(ls), base)[i];
                &&& r.key == ls[i].key
                &&& r.value == ls[i].value
                &&& !r.tombstone
            },
    decreases ls.len(),
{
    if ls.len() == 0 {
        assert(spec_scan(records_bytes(ls), base) =~= Seq::<DataRecView>::empty());
    } else {
        let head = ls[0];
        let rest = records_bytes(ls.skip(1));
        lemma_scan_one_record(head.key, head.value, false, rest, base);
        assert(spec_data_record(head.key, head.value, head.tombstone) == spec_data_record(
            head.key,
            head.value,
            false,
        ));
        assert forall|i: int| 0 <= i < ls.skip(1).len() implies {
            let e = #[trigger] ls.skip(1)[i];
            &&& !e.tombstone
            &&& e.key.len() <= MAX_KEY_SIZE
            &&& e.value.len() <= MAX_VALUE_SIZE
        } by {
            assert(ls.skip(1)[i] == ls[i + 1]);
        }
        let d0 = spec_data_record(head.key, head.value, false);
        lemma_scan_of_encoded(ls.skip(1), base + d0.len());
        let whole = spec_scan(records_bytes(ls), base);
        let tail_scan = spec_scan(rest, base + d0.len());
        assert(whole == seq![
            DataRecView { key: head.key, value: head.value, tombstone: false, offset: base },
        ] + tail_scan);
        assert forall|i: int| 0 <= i < ls.len() implies {
            let r = #[trigger] whole[i];
            &&& r.key == ls[i].key
            &&& r.value == ls[i].value
            &&& !r.tombstone
        } by {
            if i > 0 {
                assert(whole[i] == tail_scan[i - 1]);
                assert(ls.skip(1)[i - 1] == ls[i]);
            }
        }
    }
}

/// Deduplicate the scanned records of one data file and report the counts:
/// how many records were scanned, how many live ones remain, and how many
/// were removed. The serialized live records are the new file's bytes.
pub fn compact_buffer(buffer: &[u8], file_path: String, original_bytes: u64) -> (r: (
    Vec<u8>,
    CompactionResult,
))
    ensures
        ({
            let scanned = spec_scan(buffer@, 0);
            let live = spec_compact(scanned);
            &&& r.0@ == records_bytes(live)
            &&& r.1.original_entries == scanned.len()
            &&& r.1.live_entries == live.len()
            &&& r.1.removed_entries == scanned.len() - live.len()
            &&& r.1.original_bytes == original_bytes
            &&& r.1.compacted_bytes == r.0@.len()
            &&& r.1.file_path@ == file_path@
        }),
{
    let entries = scan_records(buffer);
    let ghost scanned = spec_scan(buffer@, 0);
    let live = compact_records(&entries);
    proof {
        lemma_compact_len_le(scanned);
        lemma_scanned_records_bounded(buffer@, 0);
        lemma_compact_keeps_latest(scanned);
        assert forall|i: int| 0 <= i < live@.len() implies {
            let e = #[trigger] data_entries_view(live@)[i];
            &&& !e.tombstone
            &&& e.key.len() <= MAX_KEY_SIZE
            &&& e.value.len() <= MAX_VALUE_SIZE
        } by {
            let r = data_entries_view(live@)[i];
            assert(spec_compact(scanned)[i] == r);
            assert(last_rec_for(scanned, r.key) == Some(r));
            lemma_last_rec_elem(scanned, r.key);
            let j = choose|j: int| 0 <= j < scanned.len() && #[trigger] scanned[j] == r;
            assert(spec_scan(buffer@, 0)[j] == r);
        }
    }
    let out = encode_entries(&live);
    let original_entries = entries.len();
    let live_entries = live.len();
    let removed_entries = original_entries - live_entries;
    let compacted_bytes = out.len() as u64;
    let result = CompactionResult {
        file_path,
        original_entries,
        live_entries,
        removed_entries,
        original_bytes,
        compacted_bytes,
    };
    (out, result)
}

/// Count the distinct keys whose last record is live: what a compaction
/// would keep.
pub fn live_unique_count(entries: &Vec<DataEntry>) -> (r: usize)
    ensures
        r == spec_compact(data_entries_view(entries@)).len(),
{
    let live = compact_records(entries);
    live.len()
}

/// Whether the dead-space ratio `(total - live) / total` is at least the
/// threshold `num / den`, decided in integer arithmetic.
pub fn dead_ratio_at_least(total: usize, live: usize, num: u64, den: u64) -> (r: bool)
    requires
        live <= total,
        den > 0,
    ensures
        r == ((total - live) * den >= num * total),
{
    proof {
        assert((total - live) * den <= u128::MAX) by (nonlinear_arith)
            requires
                live <= total,
                total <= usize::MAX,
                den <= u64::MAX,
        ;
        assert(num * total <= u128::MAX) by (nonlinear_arith)
            requires
                total <= usize::MAX,
                num <= u64::MAX,
        ;
    }
    let dead128: u128 = (total - live) as u128 * den as u128;
    let bar128: u128 = num as u128 * total as u128;
    dead128 >= bar128
}

/// Whether a file's records call for compaction: the dead-space ratio
/// reaches the threshold `num / den`. A file with no records never does.
pub fn needs_compaction_records(entries: &Vec<DataEntry>, num: u64, den: u64) -> (r: bool)
    requires
        den > 0,
    ensures
        entries@.len() == 0 ==> r == false,
        entries@.len() > 0 ==> r == ((entries@.len() - spec_compact(
            data_entries_view(entries@),
        ).len()) * den >= num * entries@.len()),
{
    if entries.len() == 0 {
        return false;
    }
    let live = live_unique_count(entries);
    proof {
        lemma_compact_len_le(data_entries_view(entries@));
    }
    dead_ratio_at_least(entries.len(), live, num, den)
}

/// What `last_rec_for` returns is bounded like the element of `s` it is.
proof fn lemma_last_rec_elem(s: Seq<DataRecView>, k: Seq<u8>)
    ensures
        last_rec_for(s, k) matches Some(r) ==> exists|j: int|
            0 <= j < s.len() && #[trigger] s[j] == r,
    decreases s.len(),
{
    if s.len() == 0 {
    } else if s.last().key == k {
        assert(s[s.len() - 1] == s.last());
    } else {
        lemma_last_rec_elem(s.drop_last(), k);
        if last_rec_for(s, k) is Some {
            let r = last_rec_for(s, k).unwrap();
            let j = choose|j: int| 0 <= j < s.drop_last().len() && #[trigger] s.drop_last()[j] == r;
            assert(s[j] == r);
        }
    }
}

} // verus!