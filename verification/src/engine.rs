//! The in-memory index and log replay.
//!
//! The index maps opaque byte-string keys to byte-string values. It is kept
//! as a vector of pairs sorted strictly by key in lexicographic order, which
//! makes prefix enumeration naturally ordered. Replay folds a sequence of
//! recovered log records into a fresh index: puts insert or overwrite,
//! deletes remove. The embedding program guards one index with a
//! reader-writer lock and appends to the log before every mutation.

use vstd::prelude::*;
use vstd::seq_lib::*;
use vstd::slice::slice_to_vec;

use crate::format::{Operation, WalEntry};
use crate::wal::{entries_op_views, OpView};

verus! {

/// Strict lexicographic order on byte strings: a proper prefix comes first,
/// otherwise the first differing byte decides.
pub open spec fn lex_lt(a: Seq<u8>, b: Seq<u8>) -> bool
    decreases a.len(),
{
    if b.len() == 0 {
        false
    } else if a.len() == 0 {
        true
    } else if a[0] < b[0] {
        true
    } else if a[0] > b[0] {
        false
    } else {
        lex_lt(a.skip(1), b.skip(1))
    }
}

/// Of two byte strings, exactly one holds: the first is smaller, they are
/// equal, or the second is smaller.
pub proof fn lemma_lex_trichotomy(a: Seq<u8>, b: Seq<u8>)
    ensures
        lex_lt(a, b) || lex_lt(b, a) || a == b,
        lex_lt(a, b) ==> !lex_lt(b, a) && a != b,
        lex_lt(b, a) ==> !lex_lt(a, b) && b != a,
    decreases a.len(),
{
    if b.len() == 0 || a.len() == 0 {
        if a.len() == 0 && b.len() == 0 {
            assert(a =~= b);
        }
    } else if a[0] < b[0] {
    } else if a[0] > b[0] {
    } else {
        lemma_lex_trichotomy(a.skip(1), b.skip(1));
        if a.skip(1) == b.skip(1) {
            assert(a.len() == b.len());
            assert forall|i: int| 0 <= i < a.len() implies a[i] == b[i] by {
                if i > 0 {
                    assert(a[i] == a.skip(1)[i - 1]);
                    assert(b[i] == b.skip(1)[i - 1]);
                }
            }
            assert(a =~= b);
        }
        if a == b {
            assert(a.skip(1) =~= b.skip(1));
        }
    }
}

/// Lexicographic order is transitive.
pub proof fn lemma_lex_transitive(a: Seq<u8>, b: Seq<u8>, c: Seq<u8>)
    requires
        lex_lt(a, b),
        lex_lt(b, c),
    ensures
        lex_lt(a, c),
    decreases a.len(),
{
    if c.len() == 0 {
    } else if a.len() == 0 {
    } else {
        if b.len() == 0 {
        } else {
            if a[0] == b[0] && b[0] == c[0] {
                lemma_lex_transitive(a.skip(1), b.skip(1), c.skip(1));
            }
        }
    }
}

/// Whether `p` is a prefix of `k`.
pub open spec fn has_prefix(k: Seq<u8>, p: Seq<u8>) -> bool {
    p.len() <= k.len() && k.subrange(0, p.len() as int) == p
}

/// Stripping a shared prefix preserves the order of two byte strings.
pub proof fn lemma_lex_strip_prefix(a: Seq<u8>, b: Seq<u8>, p: Seq<u8>)
    requires
        has_prefix(a, p),
        has_prefix(b, p),
        lex_lt(a, b),
    ensures
        lex_lt(a.skip(p.len() as int), b.skip(p.len() as int)),
    decreases p.len(),
{
    if p.len() == 0 {
        assert(a.skip(0) =~= a);
        assert(b.skip(0) =~= b);
    } else {
        assert(a[0] == p[0]) by {
            assert(a.subrange(0, p.len() as int)[0] == a[0]);
        }
        assert(b[0] == p[0]) by {
            assert(b.subrange(0, p.len() as int)[0] == b[0]);
        }
        assert(lex_lt(a.skip(1), b.skip(1)));
        assert(has_prefix(a.skip(1), p.skip(1))) by {
            assert(a.skip(1).subrange(0, p.len() - 1) =~= p.skip(1));
        }
        assert(has_prefix(b.skip(1), p.skip(1))) by {
            assert(b.skip(1).subrange(0, p.len() - 1) =~= p.skip(1));
        }
        lemma_lex_strip_prefix(a.skip(1), b.skip(1), p.skip(1));
        assert(a.skip(1).skip(p.len() - 1) =~= a.skip(p.len() as int));
        assert(b.skip(1).skip(p.len() - 1) =~= b.skip(p.len() as int));
    }
}

/// Compare two byte strings for equality.
pub fn bytes_eq(a: &[u8], b: &[u8]) -> (r: bool)
    ensures
        r == (a@ == b@),
{
    if a.len() != b.len() {
        return false;
    }
    let mut i: usize = 0;
    while i < a.len()
        invariant
            a@.len() == b@.len(),
            i <= a@.len(),
            forall|j: int| 0 <= j < i ==> a@[j] == b@[j],
        decreases a@.len() - i,
    {
        if a[i] != b[i] {
            return false;
        }
        i = i + 1;
    }
    proof {
        assert(a@ =~= b@);
    }
    true
}

/// Decide whether `a` comes strictly before `b` in lexicographic order.
pub fn bytes_lt(a: &[u8], b: &[u8]) -> (r: bool)
    ensures
        r == lex_lt(a@, b@),
{
    let mut i: usize = 0;
    proof {
        assert(a@.skip(0) =~= a@);
        assert(b@.skip(0) =~= b@);
    }
    loop
        invariant
            i <= a@.len(),
            i <= b@.len(),
            lex_lt(a@, b@) == lex_lt(a@.skip(i as int), b@.skip(i as int)),
        ensures
            (i == a@.len() || i == b@.len()) && lex_lt(a@, b@) == lex_lt(
                a@.skip(i as int),
                b@.skip(i as int),
            ),
        decreases a@.len() - i,
    {
        if i >= a.len() || i >= b.len() {
            break;
        }
        let ghost sa = a@.skip(i as int);
        let ghost sb = b@.skip(i as int);
        if a[i] < b[i] {
            proof {
                assert(sa[0] == a@[i as int] && sb[0] == b@[i as int]);
            }
            return true;
        }
        if a[i] > b[i] {
            proof {
                assert(sa[0] == a@[i as int] && sb[0] == b@[i as int]);
            }
            return false;
        }
        i = i + 1;
        proof {
            assert(sa.skip(1) =~= a@.skip(i as int));
            assert(sb.skip(1) =~= b@.skip(i as int));
        }
    }
    proof {
        if i == a@.len() {
            assert(a@.skip(i as int) =~= Seq::<u8>::empty());
        }
        if i == b@.len() {
            assert(b@.skip(i as int) =~= Seq::<u8>::empty());
        }
    }
    a.len() < b.len()
}

/// Decide whether `k` starts with `p`.
pub fn bytes_starts_with(k: &[u8], p: &[u8]) -> (r: bool)
    ensures
        r == has_prefix(k@, p@),
{
    if p.len() > k.len() {
        return false;
    }
    let mut i: usize = 0;
    while i < p.len()
        invariant
            p@.len() <= k@.len(),
            i <= p@.len(),
            forall|j: int| 0 <= j < i ==> k@[j] == p@[j],
        decreases p@.len() - i,
    {
        if k[i] != p[i] {
            proof {
                assert(k@.subrange(0, p@.len() as int)[i as int] != p@[i as int]);
            }
            return false;
        }
        i = i + 1;
    }
    proof {
        assert(k@.subrange(0, p@.len() as int) =~= p@);
    }
    true
}

/// Copy a byte vector.
pub fn clone_bytes(src: &Vec<u8>) -> (r: Vec<u8>)
    ensures
        r@ == src@,
{
    slice_to_vec(src.as_slice())
}

/// One key-value pair of the index.
pub struct KvPair {
    /// The key bytes.
    pub key: Vec<u8>,
    /// The value bytes.
    pub value: Vec<u8>,
}

/// The in-memory index: the engine's working set, rebuilt from the log on
/// open. Pairs are held strictly sorted by key.
pub struct KvIndex {
    pairs: Vec<KvPair>,
}

impl KvIndex {
    /// The pairs as a sequence of byte-string pairs.
    pub closed spec fn kv_seq(self) -> Seq<(Seq<u8>, Seq<u8>)> {
        self.pairs@.map_values(|p: KvPair| (p.key@, p.value@))
    }

    /// Well-formed: keys strictly increasing, hence unique.
    pub open spec fn wf(self) -> bool {
        forall|i: int, j: int|
            #![trigger self.kv_seq()[i], self.kv_seq()[j]]
            0 <= i < j < self.kv_seq().len() ==> lex_lt(self.kv_seq()[i].0, self.kv_seq()[j].0)
    }

    /// The mapping the index denotes.
    pub open spec fn as_map(self) -> Map<Seq<u8>, Seq<u8>> {
        Map::new(
            |k: Seq<u8>|
                exists|i: int| 0 <= i < self.kv_seq().len() && (#[trigger] self.kv_seq()[i]).0 == k,
            |k: Seq<u8>|
                {
                    let i = choose|i: int|
                        0 <= i < self.kv_seq().len() && (#[trigger] self.kv_seq()[i]).0 == k;
                    self.kv_seq()[i].1
                },
        )
    }

    /// In a well-formed index no two slots share a key.
    pub proof fn lemma_keys_unique(self)
        requires
            self.wf(),
        ensures
            forall|i: int, j: int|
                #![trigger self.kv_seq()[i], self.kv_seq()[j]]
                0 <= i < self.kv_seq().len() && 0 <= j < self.kv_seq().len() && self.kv_seq()[i].0
                    == self.kv_seq()[j].0 ==> i == j,
    {
        assert forall|i: int, j: int|
            #![trigger self.kv_seq()[i], self.kv_seq()[j]]
            0 <= i < self.kv_seq().len() && 0 <= j < self.kv_seq().len() && self.kv_seq()[i].0
                == self.kv_seq()[j].0 implies i == j by {
            if i < j {
                lemma_lex_trichotomy(self.kv_seq()[i].0, self.kv_seq()[j].0);
            }
            if j < i {
                lemma_lex_trichotomy(self.kv_seq()[i].0, self.kv_seq()[j].0);
            }
        }
    }

    /// Each slot's key maps to that slot's value.
    pub proof fn lemma_map_index(self, i: int)
        requires
            self.wf(),
            0 <= i < self.kv_seq().len(),
        ensures
            self.as_map().contains_key(self.kv_seq()[i].0),
            self.as_map()[self.kv_seq()[i].0] == self.kv_seq()[i].1,
    {
        self.lemma_keys_unique();
        let k = self.kv_seq()[i].0;
        assert(0 <= i < self.kv_seq().len() && self.kv_seq()[i].0 == k);
    }

    /// A key in the mapping names some slot.
    pub proof fn lemma_map_contains_to_index(self, k: Seq<u8>) -> (i: int)
        requires
            self.wf(),
            self.as_map().contains_key(k),
        ensures
            0 <= i < self.kv_seq().len(),
            self.kv_seq()[i].0 == k,
            self.kv_seq()[i].1 == self.as_map()[k],
    {
        self.lemma_keys_unique();
        let i = choose|i: int|
            0 <= i < self.kv_seq().len() && (#[trigger] self.kv_seq()[i]).0 == k;
        i
    }

    /// Create an empty index.
    pub fn new() -> (r: KvIndex)
        ensures
            r.wf(),
            r.as_map() == Map::<Seq<u8>, Seq<u8>>::empty(),
            r.kv_seq().len() == 0,
    {
        let r = KvIndex { pairs: Vec::new() };
        proof {
            assert(r.as_map() =~= Map::<Seq<u8>, Seq<u8>>::empty());
        }
        r
    }

    /// Number of keys present.
    pub fn len(&self) -> (r: usize)
        requires
            self.wf(),
        ensures
            r == self.kv_seq().len(),
            r == self.as_map().dom().len(),
            self.as_map().dom().finite(),
    {
        proof {
            self.lemma_dom_cardinality();
        }
        self.pairs.len()
    }

    /// Whether no key is present.
    pub fn is_empty(&self) -> (r: bool)
        requires
            self.wf(),
        ensures
            r == (self.as_map().dom().len() == 0),
            self.as_map().dom().finite(),
    {
        proof {
            self.lemma_dom_cardinality();
        }
        self.pairs.len() == 0
    }

    /// The mapping's domain is finite with one element per slot.
    pub proof fn lemma_dom_cardinality(self)
        requires
            self.wf(),
        ensures
            self.as_map().dom().finite(),
            self.as_map().dom().len() == self.kv_seq().len(),
    {
        self.lemma_keys_unique();
        let keys = self.kv_seq().map_values(|p: (Seq<u8>, Seq<u8>)| p.0);
        assert(keys.no_duplicates()) by {
            assert forall|i: int, j: int|
                0 <= i < keys.len() && 0 <= j < keys.len() && i != j implies keys[i] != keys[j] by {
                assert(keys[i] == self.kv_seq()[i].0);
                assert(keys[j] == self.kv_seq()[j].0);
            }
        }
        keys.unique_seq_to_set();
        assert(self.as_map().dom() =~= keys.to_set()) by {
            assert forall|k: Seq<u8>| #[trigger] self.as_map().dom().contains(k) implies keys
                .to_set().contains(k) by {
                let i = choose|i: int|
                    0 <= i < self.kv_seq().len() && (#[trigger] self.kv_seq()[i]).0 == k;
                assert(keys[i] == k);
            }
            assert forall|k: Seq<u8>| #[trigger] keys.to_set().contains(k) implies self.as_map()
                .dom().contains(k) by {
                let i = choose|i: int| 0 <= i < keys.len() && keys[i] == k;
                assert(self.kv_seq()[i].0 == k);
            }
        }
    }

    /// Look up a key, returning a copy of its value.
    pub fn get(&self, key: &[u8]) -> (r: Option<Vec<u8>>)
        requires
            self.wf(),
        ensures
            match r {
                Some(v) => self.as_map().contains_key(key@) && v@ == self.as_map()[key@],
                None => !self.as_map().contains_key(key@),
            },
    {
        let n = self.pairs.len();
        let mut i: usize = 0;
        while i < n
            invariant
                self.wf(),
                n == self.kv_seq().len(),
                i <= n,
                forall|j: int| 0 <= j < i ==> (#[trigger] self.kv_seq()[j]).0 != key@,
            decreases n - i,
        {
            if bytes_eq(self.pairs[i].key.as_slice(), key) {
                let v = clone_bytes(&self.pairs[i].value);
                proof {
                    self.lemma_map_index(i as int);
                }
                return Some(v);
            }
            i = i + 1;
        }
        proof {
            if self.as_map().contains_key(key@) {
                let j = self.lemma_map_contains_to_index(key@);
            }
        }
        None
    }

    /// Whether a key is present.
    pub fn contains_key(&self, key: &[u8]) -> (r: bool)
        requires
            self.wf(),
        ensures
            r == self.as_map().contains_key(key@),
    {
        let v = self.get(key);
        v.is_some()
    }

    /// Insert or overwrite a key.
    pub fn insert(&mut self, key: Vec<u8>, value: Vec<u8>)
        requires
            old(self).wf(),
        ensures
            final(self).wf(),
            final(self).as_map() == old(self).as_map().insert(key@, value@),
            final(self).kv_seq().len() == old(self).kv_seq().len() + (if old(
                self,
            ).as_map().contains_key(key@) {
                0int
            } else {
                1int
            }),
    {
        let ghost olds = self.kv_seq();
        let n = self.pairs.len();
        let mut pos: usize = 0;
        loop
            invariant
                self.wf(),
                self == old(self),
                n == self.kv_seq().len(),
                pos <= n,
                forall|j: int| 0 <= j < pos ==> lex_lt((#[trigger] self.kv_seq()[j]).0, key@),
            ensures
                self == old(self),
                pos <= n,
                n == self.kv_seq().len(),
                forall|j: int| 0 <= j < pos ==> lex_lt((#[trigger] self.kv_seq()[j]).0, key@),
                pos < n ==> !lex_lt(self.kv_seq()[pos as int].0, key@),
            decreases n - pos,
        {
            if pos >= n {
                break;
            }
            if !bytes_lt(self.pairs[pos].key.as_slice(), key.as_slice()) {
                break;
            }
            pos = pos + 1;
        }

        if pos < n && bytes_eq(self.pairs[pos].key.as_slice(), key.as_slice()) {
            // Overwrite in place: same key, new value.
            self.pairs.remove(pos);
            self.pairs.insert(pos, KvPair { key, value });
            proof {
                let news = self.kv_seq();
                assert(news =~= olds.update(pos as int, (olds[pos as int].0, value@)));
                assert forall|i: int, j: int|
                    #![trigger news[i], news[j]]
                    0 <= i < j < news.len() implies lex_lt(news[i].0, news[j].0) by {
                    assert(olds[i] == old(self).kv_seq()[i]);
                    assert(olds[j] == old(self).kv_seq()[j]);
                }
                old(self).lemma_map_index(pos as int);
                old(self).lemma_keys_unique();
                self.lemma_keys_unique();
                assert(self.as_map() =~= old(self).as_map().insert(key@, value@)) by {
                    assert forall|k: Seq<u8>| #[trigger]
                        self.as_map().contains_key(k) == old(self).as_map().insert(
                            key@,
                            value@,
                        ).contains_key(k) && (self.as_map().contains_key(k) ==> self.as_map()[k]
                        == old(self).as_map().insert(key@, value@)[k]) by {
                        if self.as_map().contains_key(k) {
                            let i = self.lemma_map_contains_to_index(k);
                            if i == pos {
                            } else {
                                old(self).lemma_map_index(i);
                            }
                        }
                        if old(self).as_map().insert(key@, value@).contains_key(k) {
                            if k == key@ {
                                self.lemma_map_index(pos as int);
                            } else {
                                let i = old(self).lemma_map_contains_to_index(k);
                                self.lemma_map_index(i);
                            }
                        }
                    }
                }
            }
        } else {
            proof {
                // The new key is strictly between its neighbours.
                if pos < n {
                    lemma_lex_trichotomy(olds[pos as int].0, key@);
                }
            }
            self.pairs.insert(pos, KvPair { key, value });
            proof {
                let news = self.kv_seq();
                assert(news =~= olds.insert(pos as int, (key@, value@)));
                assert forall|i: int, j: int|
                    #![trigger news[i], news[j]]
                    0 <= i < j < news.len() implies lex_lt(news[i].0, news[j].0) by {
                    let oi = if i < pos { i } else { i - 1 };
                    let oj = if j < pos { j } else { j - 1 };
                    if i == pos {
                        // news[i] is the new pair; j > pos, so olds[j-1] >= key
                        assert(news[j] == olds[j - 1]);
                        if pos < n {
                            if j - 1 > pos {
                                lemma_lex_transitive(key@, olds[pos as int].0, olds[j - 1].0);
                            }
                        }
                    } else if j == pos {
                        assert(news[i] == olds[i]);
                    } else {
                        assert(news[i] == olds[oi]);
                        assert(news[j] == olds[oj]);
                        if oi < oj {
                        } else {
                            assert(oi == oj);
                            assert(i < pos && j > pos);
                            assert(false);
                        }
                    }
                }
                // No old slot holds this key.
                assert forall|j: int| 0 <= j < n implies olds[j].0 != key@ by {
                    if j < pos {
                        lemma_lex_trichotomy(olds[j].0, key@);
                    } else {
                        if pos < n {
                            lemma_lex_trichotomy(olds[pos as int].0, key@);
                            if j > pos {
                                lemma_lex_transitive(key@, olds[pos as int].0, olds[j].0);
                                lemma_lex_trichotomy(olds[j].0, key@);
                            }
                        }
                    }
                }
                if old(self).as_map().contains_key(key@) {
                    let i = old(self).lemma_map_contains_to_index(key@);
                    assert(false);
                }
                old(self).lemma_keys_unique();
                self.lemma_keys_unique();
                assert(self.as_map() =~= old(self).as_map().insert(key@, value@)) by {
                    assert forall|k: Seq<u8>| #[trigger]
                        self.as_map().contains_key(k) == old(self).as_map().insert(
                            key@,
                            value@,
                        ).contains_key(k) && (self.as_map().contains_key(k) ==> self.as_map()[k]
                        == old(self).as_map().insert(key@, value@)[k]) by {
                        if self.as_map().contains_key(k) {
                            let i = self.lemma_map_contains_to_index(k);
                            if i == pos {
                            } else {
                                let oi = if i < pos { i } else { i - 1 };
                                assert(news[i] == olds[oi]);
                                old(self).lemma_map_index(oi);
                            }
                        }
                        if old(self).as_map().insert(key@, value@).contains_key(k) {
                            if k == key@ {
                                self.lemma_map_index(pos as int);
                            } else {
                                let oi = old(self).lemma_map_contains_to_index(k);
                                let i = if oi < pos { oi } else { oi + 1 };
                                assert(news[i] == olds[oi]);
                                self.lemma_map_index(i);
                            }
                        }
                    }
                }
            }
        }
    }

    /// Remove a key if present.
    pub fn remove(&mut self, key: &[u8])
        requires
            old(self).wf(),
        ensures
            final(self).wf(),
            final(self).as_map() == old(self).as_map().remove(key@),
            final(self).kv_seq().len() == old(self).kv_seq().len() - (if old(
                self,
            ).as_map().contains_key(key@) {
                1int
            } else {
                0int
            }),
    {
        let ghost olds = self.kv_seq();
        let n = self.pairs.len();
        let mut i: usize = 0;
        while i < n
            invariant
                self.wf(),
                self == old(self),
                olds == self.kv_seq(),
                n == self.kv_seq().len(),
                i <= n,
                forall|j: int| 0 <= j < i ==> (#[trigger] self.kv_seq()[j]).0 != key@,
            decreases n - i,
        {
            if bytes_eq(self.pairs[i].key.as_slice(), key) {
                proof {
                    old(self).lemma_map_index(i as int);
                }
                self.pairs.remove(i);
                proof {
                    let news = self.kv_seq();
                    assert(news =~= olds.remove(i as int));
                    assert forall|a: int, b: int|
                        #![trigger news[a], news[b]]
                        0 <= a < b < news.len() implies lex_lt(news[a].0, news[b].0) by {
                        let oa = if a < i { a } else { a + 1 };
                        let ob = if b < i { b } else { b + 1 };
                        assert(news[a] == olds[oa]);
                        assert(news[b] == olds[ob]);
                    }
                    old(self).lemma_keys_unique();
                    self.lemma_keys_unique();
                    assert(self.as_map() =~= old(self).as_map().remove(key@)) by {
                        assert forall|k: Seq<u8>| #[trigger]
                            self.as_map().contains_key(k) == old(self).as_map().remove(
                                key@,
                            ).contains_key(k) && (self.as_map().contains_key(k)
                            ==> self.as_map()[k] == old(self).as_map().remove(key@)[k]) by {
                            if self.as_map().contains_key(k) {
                                let a = self.lemma_map_contains_to_index(k);
                                let oa = if a < i { a } else { a + 1 };
                                assert(self.kv_seq()[a] == olds[oa]);
                                old(self).lemma_map_index(oa);
                            }
                            if old(self).as_map().remove(key@).contains_key(k) {
                                let oa = old(self).lemma_map_contains_to_index(k);
                                let a = if oa < i { oa } else { oa - 1 };
                                assert(self.kv_seq()[a] == olds[oa]);
                                self.lemma_map_index(a);
                            }
                        }
                    }
                }
                return ;
            }
            i = i + 1;
        }
        proof {
            if old(self).as_map().contains_key(key@) {
                let j = old(self).lemma_map_contains_to_index(key@);
            }
            assert(self.as_map() =~= old(self).as_map().remove(key@)) by {
                assert(!self.as_map().contains_key(key@));
            }
        }
    }

    /// Collect every pair whose key starts with `prefix`, with the prefix
    /// stripped from the keys, in ascending key order.
    pub fn prefix_scan(&self, prefix: &[u8]) -> (r: Vec<(Vec<u8>, Vec<u8>)>)
        requires
            self.wf(),
        ensures
            pairs_view(r@).len() == count_prefixed(self.kv_seq(), prefix@),
            forall|i: int|
                0 <= i < r@.len() ==> {
                    let q = #[trigger] pairs_view(r@)[i];
                    &&& self.as_map().contains_key(prefix@ + q.0)
                    &&& self.as_map()[prefix@ + q.0] == q.1
                },
            forall|j: int|
                0 <= j < self.kv_seq().len() && has_prefix(
                    (#[trigger] self.kv_seq()[j]).0,
                    prefix@,
                ) ==> exists|i: int|
                    0 <= i < r@.len() && #[trigger] pairs_view(r@)[i] == (
                        self.kv_seq()[j].0.skip(prefix@.len() as int),
                        self.kv_seq()[j].1,
                    ),
            forall|i: int, j: int|
                #![trigger pairs_view(r@)[i], pairs_view(r@)[j]]
                0 <= i < j < r@.len() ==> lex_lt(pairs_view(r@)[i].0, pairs_view(r@)[j].0),
    {
        let plen = prefix.len();
        let n = self.pairs.len();
        let mut out: Vec<(Vec<u8>, Vec<u8>)> = Vec::new();
        let ghost mut srcs: Seq<int> = Seq::empty();
        let mut idx: usize = 0;
        while idx < n
            invariant
                self.wf(),
                plen == prefix@.len(),
                n == self.kv_seq().len(),
                idx <= n,
                srcs.len() == out@.len(),
                pairs_view(out@).len() == count_prefixed(
                    self.kv_seq().subrange(0, idx as int),
                    prefix@,
                ),
                forall|i: int|
                    0 <= i < out@.len() ==> {
                        let j = #[trigger] srcs[i];
                        &&& 0 <= j < idx
                        &&& has_prefix(self.kv_seq()[j].0, prefix@)
                        &&& pairs_view(out@)[i] == (
                            self.kv_seq()[j].0.skip(prefix@.len() as int),
                            self.kv_seq()[j].1,
                        )
                    },
                forall|i1: int, i2: int| 0 <= i1 < i2 < srcs.len() ==> #[trigger] srcs[i1]
                    < #[trigger] srcs[i2],
                forall|j: int|
                    0 <= j < idx && has_prefix((#[trigger] self.kv_seq()[j]).0, prefix@)
                        ==> exists|i: int|
                        0 <= i < out@.len() && #[trigger] pairs_view(out@)[i] == (
                            self.kv_seq()[j].0.skip(prefix@.len() as int),
                            self.kv_seq()[j].1,
                        ),
            decreases n - idx,
        {
            let ghost kv = self.kv_seq();
            let ghost out0 = out@;
            let pair = &self.pairs[idx];
            let ghost pushed = has_prefix(kv[idx as int].0, prefix@);
            if bytes_starts_with(pair.key.as_slice(), prefix) {
                let stripped = slice_to_vec(
                    vstd::slice::slice_subrange(pair.key.as_slice(), plen, pair.key.len()),
                );
                let value = clone_bytes(&pair.value);
                proof {
                    assert(stripped@ =~= kv[idx as int].0.skip(prefix@.len() as int));
                }
                out.push((stripped, value));
                proof {
                    srcs = srcs + seq![idx as int];
                    assert(pairs_view(out@)[out0.len() as int] == (
                        kv[idx as int].0.skip(prefix@.len() as int),
                        kv[idx as int].1,
                    ));
                }
            }
            idx = idx + 1;
            proof {
                assert(kv.subrange(0, idx as int).drop_last() =~= kv.subrange(0, idx - 1));
                assert(kv.subrange(0, idx as int).last() == kv[idx - 1]);
                assert(pairs_view(out@).len() == count_prefixed(
                    kv.subrange(0, idx as int),
                    prefix@,
                ));
                assert forall|j: int|
                    0 <= j < idx && has_prefix((#[trigger] kv[j]).0, prefix@) implies exists|i: int|
                    0 <= i < out@.len() && #[trigger] pairs_view(out@)[i] == (
                        kv[j].0.skip(prefix@.len() as int),
                        kv[j].1,
                    ) by {
                    if j == idx - 1 {
                        assert(pairs_view(out@)[out0.len() as int] == (
                            kv[j].0.skip(prefix@.len() as int),
                            kv[j].1,
                        ));
                    } else {
                        let i = choose|i: int|
                            0 <= i < out0.len() && #[trigger] pairs_view(out0)[i] == (
                                kv[j].0.skip(prefix@.len() as int),
                                kv[j].1,
                            );
                        assert(pairs_view(out@)[i] == pairs_view(out0)[i]);
                    }
                }
            }
        }
        proof {
            assert(self.kv_seq().subrange(0, n as int) =~= self.kv_seq());
            assert forall|i: int|
                0 <= i < out@.len() implies {
                let q = #[trigger] pairs_view(out@)[i];
                &&& self.as_map().contains_key(prefix@ + q.0)
                &&& self.as_map()[prefix@ + q.0] == q.1
            } by {
                let j = srcs[i];
                assert(prefix@ + self.kv_seq()[j].0.skip(prefix@.len() as int)
                    =~= self.kv_seq()[j].0);
                self.lemma_map_index(j);
            }
            assert forall|i: int, j: int|
                #![trigger pairs_view(out@)[i], pairs_view(out@)[j]]
                0 <= i < j < out@.len() implies lex_lt(
                pairs_view(out@)[i].0,
                pairs_view(out@)[j].0,
            ) by {
                let si = srcs[i];
                let sj = srcs[j];
                assert(si < sj);
                assert(lex_lt(self.kv_seq()[si].0, self.kv_seq()[sj].0));
                lemma_lex_strip_prefix(self.kv_seq()[si].0, self.kv_seq()[sj].0, prefix@);
            }
        }
        out
    }

    /// Count the keys that start with `prefix`.
    pub fn prefix_count(&self, prefix: &[u8]) -> (r: usize)
        requires
            self.wf(),
        ensures
            r == count_prefixed(self.kv_seq(), prefix@),
    {
        let n = self.pairs.len();
        let mut count: usize = 0;
        let mut idx: usize = 0;
        while idx < n
            invariant
                self.wf(),
                n == self.kv_seq().len(),
                idx <= n,
                count <= idx,
                count == count_prefixed(self.kv_seq().subrange(0, idx as int), prefix@),
            decreases n - idx,
        {
            let ghost kv = self.kv_seq();
            if bytes_starts_with(self.pairs[idx].key.as_slice(), prefix) {
                count = count + 1;
            }
            idx = idx + 1;
            proof {
                assert(kv.subrange(0, idx as int).drop_last() =~= kv.subrange(0, idx - 1));
                assert(kv.subrange(0, idx as int).last() == kv[idx - 1]);
            }
        }
        proof {
            assert(self.kv_seq().subrange(0, n as int) =~= self.kv_seq());
        }
        count
    }
}

/// The view of a vector of owned pairs as byte-string pairs.
pub open spec fn pairs_view(r: Seq<(Vec<u8>, Vec<u8>)>) -> Seq<(Seq<u8>, Seq<u8>)> {
    r.map_values(|p: (Vec<u8>, Vec<u8>)| (p.0@, p.1@))
}

/// How many keys of `s` start with `p`.
pub open spec fn count_prefixed(s: Seq<(Seq<u8>, Seq<u8>)>, p: Seq<u8>) -> int
    decreases s.len(),
{
    if s.len() == 0 {
        0
    } else {
        count_prefixed(s.drop_last(), p) + if has_prefix(s.last().0, p) {
            1int
        } else {
            0int
        }
    }
}

/// The mapping after one mutation: a put inserts or overwrites, a delete
/// removes.
pub open spec fn apply_op(m: Map<Seq<u8>, Seq<u8>>, o: OpView) -> Map<Seq<u8>, Seq<u8>> {
    match o.op {
        Operation::Put => m.insert(o.key, o.value),
        Operation::Delete => m.remove(o.key),
    }
}

/// The mapping a sequence of mutations builds from nothing, applied in
/// order.
pub open spec fn replay_map(ops: Seq<OpView>) -> Map<Seq<u8>, Seq<u8>>
    decreases ops.len(),
{
    if ops.len() == 0 {
        Map::empty()
    } else {
        apply_op(replay_map(ops.drop_last()), ops.last())
    }
}

/// Rebuild an index by replaying recovered log records in order: puts
/// insert or overwrite, deletes remove. An empty record sequence yields an
/// empty index.
pub fn replay_entries(entries: &Vec<WalEntry>) -> (r: KvIndex)
    ensures
        r.wf(),
        r.as_map() == replay_map(entries_op_views(entries@)),
{
    let mut idx = KvIndex::new();
    proof {
        assert(entries_op_views(entries@).subrange(0, 0) =~= Seq::<OpView>::empty());
    }
    let mut i: usize = 0;
    while i < entries.len()
        invariant
            idx.wf(),
            i <= entries@.len(),
            idx.as_map() == replay_map(entries_op_views(entries@).subrange(0, i as int)),
        decreases entries@.len() - i,
    {
        let e = &entries[i];
        match e.operation {
            Operation::Put => {
                let k = clone_bytes(&e.key);
                let v = clone_bytes(&e.value);
                idx.insert(k, v);
            },
            Operation::Delete => {
                idx.remove(e.key.as_slice());
            },
        }
        i = i + 1;
        proof {
            let ops = entries_op_views(entries@);
            assert(ops.subrange(0, i as int).drop_last() =~= ops.subrange(0, i - 1));
            assert(ops.subrange(0, i as int).last() == ops[i - 1]);
            assert(ops[i - 1] == crate::wal::wal_entry_op_view(entries@[i - 1]));
        }
    }
    proof {
        assert(entries_op_views(entries@).subrange(0, entries@.len() as int) =~= entries_op_views(
            entries@,
        ));
    }
    idx
}

/// Durability: the index rebuilt by recovering and replaying the log that a
/// sequence of acknowledged mutations wrote equals the index those
/// mutations built in memory.
pub proof fn lemma_reopen_matches_live_state(ops: Seq<OpView>)
    requires
        forall|i: int| 0 <= i < ops.len() ==> crate::wal::op_within_caps(#[trigger] ops[i]),
    ensures
        replay_map(
            crate::wal::recs_op_views(
                crate::wal::spec_recover(crate::wal::wal_bytes_of(ops)),
            ),
        ) == replay_map(ops),
{
    crate::wal::lemma_log_round_trip_recovery(ops);
}

/// Once a delete of a key is applied, the key stays absent until a later
/// put of the same key: with no such put, the replayed mapping does not
/// contain it.
pub proof fn lemma_delete_holds_until_put(ops: Seq<OpView>, i: int)
    requires
        0 <= i < ops.len(),
        ops[i].op == Operation::Delete,
        forall|j: int|
            i < j < ops.len() && (#[trigger] ops[j]).op == Operation::Put ==> ops[j].key
                != ops[i].key,
    ensures
        !replay_map(ops).contains_key(ops[i].key),
    decreases ops.len(),
{
    if i == ops.len() - 1 {
    } else {
        assert forall|j: int|
            i < j < ops.drop_last().len() && (#[trigger] ops.drop_last()[j]).op == Operation::Put
            implies ops.drop_last()[j].key != ops.drop_last()[i].key by {
            assert(ops.drop_last()[j] == ops[j]);
        }
        lemma_delete_holds_until_put(ops.drop_last(), i);
        let last = ops.last();
        match last.op {
            Operation::Put => {
                assert(last.key != ops[i].key);
            },
            Operation::Delete => {},
        }
    }
}

} // verus!
