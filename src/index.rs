//! The in-memory index: each key mapped to the offset of its latest record.
use vstd::prelude::*;
use crate::bytes::{bytes_equal, copy_range};

verus! {

/// No two entries carry the same key.
pub open spec fn keys_unique(s: Seq<(Vec<u8>, u64)>) -> bool {
    forall|i: int, j: int|
        0 <= i < s.len() && 0 <= j < s.len() && (#[trigger] s[i].0)@ == (#[trigger] s[j].0)@ ==> i
            == j
}

/// Whether some entry of `s` carries key `k`.
pub open spec fn has_key(s: Seq<(Vec<u8>, u64)>, k: Seq<u8>) -> bool {
    exists|i: int| 0 <= i < s.len() && (#[trigger] s[i].0)@ == k
}

/// The mapping that a list of entries describes.
pub open spec fn map_of(s: Seq<(Vec<u8>, u64)>) -> Map<Seq<u8>, u64> {
    Map::new(
        |k: Seq<u8>| has_key(s, k),
        |k: Seq<u8>| s[choose|i: int| 0 <= i < s.len() && (#[trigger] s[i].0)@ == k].1,
    )
}

/// The entries as plain values, in order.
pub open spec fn entries_view(s: Seq<(Vec<u8>, u64)>) -> Seq<(Seq<u8>, u64)> {
    s.map_values(|e: (Vec<u8>, u64)| (e.0@, e.1))
}

/// The entry at `i` is what the mapping holds for its key.
pub proof fn lemma_map_of_at(s: Seq<(Vec<u8>, u64)>, i: int)
    requires
        keys_unique(s),
        0 <= i < s.len(),
    ensures
        map_of(s).contains_key(s[i].0@),
        map_of(s)[s[i].0@] == s[i].1,
{
    assert(has_key(s, s[i].0@));
    let j = choose|j: int| 0 <= j < s.len() && (#[trigger] s[j].0)@ == s[i].0@;
    assert(s[j].0@ == s[i].0@);
}

/// Index from key to record offset. Keys are unique; the order of entries
/// carries no meaning.
///
/// The entries are a `Vec` rather than a `HashMap<Vec<u8>, u64>`: vstd specifies
/// `HashMap` only for keys that satisfy its `obeys_key_model` (the integer
/// types, `bool` and boxes of them), a byte vector is not among them, and that
/// fact can only be assumed, not proved. No lookup or insertion on such a map
/// could then be proved.
pub struct Index {
    entries: Vec<(Vec<u8>, u64)>,
}

impl View for Index {
    type V = Map<Seq<u8>, u64>;

    closed spec fn view(&self) -> Map<Seq<u8>, u64> {
        map_of(self.entries@)
    }
}

impl Index {
    /// The representation holds each key once.
    pub closed spec fn wf(&self) -> bool {
        keys_unique(self.entries@)
    }

    /// An empty index.
    pub fn new() -> (r: Index)
        ensures
            r.wf(),
            r@ == Map::<Seq<u8>, u64>::empty(),
    {
        let r = Index { entries: Vec::new() };
        assert(r@ =~= Map::<Seq<u8>, u64>::empty());
        r
    }

    fn find(&self, key: &[u8]) -> (r: Option<usize>)
        ensures
            match r {
                Some(i) => i < self.entries@.len() && self.entries@[i as int].0@ == key@,
                None => !has_key(self.entries@, key@),
            },
    {
        let mut i: usize = 0;
        while i < self.entries.len()
            invariant
                0 <= i <= self.entries@.len(),
                forall|j: int| 0 <= j < i ==> (#[trigger] self.entries@[j].0)@ != key@,
            decreases self.entries.len() - i,
        {
            if bytes_equal(self.entries[i].0.as_slice(), key) {
                return Some(i);
            }
            i += 1;
        }
        None
    }

    /// The offset recorded for `key`, if any.
    pub fn get(&self, key: &[u8]) -> (r: Option<u64>)
        requires
            self.wf(),
        ensures
            r == (if self@.contains_key(key@) {
                Some(self@[key@])
            } else {
                None::<u64>
            }),
    {
        match self.find(key) {
            Some(i) => {
                proof {
                    lemma_map_of_at(self.entries@, i as int);
                }
                Some(self.entries[i].1)
            },
            None => None,
        }
    }

    /// Whether `key` is present.
    pub fn contains(&self, key: &[u8]) -> (r: bool)
        requires
            self.wf(),
        ensures
            r == self@.contains_key(key@),
    {
        self.find(key).is_some()
    }

    /// Records `offset` as the latest for `key`.
    pub fn set(&mut self, key: &[u8], offset: u64)
        requires
            old(self).wf(),
        ensures
            final(self).wf(),
            final(self)@ == old(self)@.insert(key@, offset),
    {
        let ghost s0 = self.entries@;
        match self.find(key) {
            Some(i) => {
                let k = copy_range(key, 0, key.len());
                assert(key@.subrange(0, key@.len() as int) =~= key@);
                self.entries.set(i, (k, offset));
                let ghost s1 = self.entries@;
                assert(keys_unique(s1)) by {
                    assert forall|a: int, b: int|
                        0 <= a < s1.len() && 0 <= b < s1.len() && (#[trigger] s1[a].0)@
                            == (#[trigger] s1[b].0)@ implies a == b by {
                        if a != i && b != i {
                            assert(s0[a].0@ == s0[b].0@);
                        } else if a == i && b != i {
                            assert(s0[b].0@ == s0[i as int].0@);
                        } else if b == i && a != i {
                            assert(s0[a].0@ == s0[i as int].0@);
                        }
                    }
                }
                proof {
                    self.lemma_view_insert(s0, i as int, key@, offset);
                }
            },
            None => {
                let k = copy_range(key, 0, key.len());
                assert(key@.subrange(0, key@.len() as int) =~= key@);
                self.entries.push((k, offset));
                let ghost s1 = self.entries@;
                assert(keys_unique(s1)) by {
                    assert forall|a: int, b: int|
                        0 <= a < s1.len() && 0 <= b < s1.len() && (#[trigger] s1[a].0)@
                            == (#[trigger] s1[b].0)@ implies a == b by {
                        if a < s0.len() && b < s0.len() {
                            assert(s0[a].0@ == s0[b].0@);
                        } else if a < s0.len() {
                            assert(s0[a].0@ == key@);
                        } else if b < s0.len() {
                            assert(s0[b].0@ == key@);
                        }
                    }
                }
                proof {
                    self.lemma_view_insert(s0, s0.len() as int, key@, offset);
                }
            },
        }
    }

    proof fn lemma_view_insert(&self, s0: Seq<(Vec<u8>, u64)>, i: int, k: Seq<u8>, offset: u64)
        requires
            keys_unique(s0),
            keys_unique(self.entries@),
            0 <= i < self.entries@.len(),
            self.entries@[i].0@ == k,
            self.entries@[i].1 == offset,
            forall|j: int| 0 <= j < s0.len() && j != i ==> #[trigger] s0[j] == self.entries@[j],
            self.entries@.len() == s0.len() || self.entries@.len() == s0.len() + 1,
            self.entries@.len() == s0.len() + 1 ==> i == s0.len(),
            i < s0.len() ==> s0[i].0@ == k,
        ensures
            self@ == map_of(s0).insert(k, offset),
    {
        let s1 = self.entries@;
        let m0 = map_of(s0);
        let m1 = map_of(s1);
        assert forall|x: Seq<u8>| m1.contains_key(x) <==> #[trigger] m0.insert(k, offset).contains_key(
            x,
        ) by {
            if m1.contains_key(x) {
                let j = choose|j: int| 0 <= j < s1.len() && (#[trigger] s1[j].0)@ == x;
                if j != i {
                    assert(s0[j].0@ == x);
                }
            }
            if m0.contains_key(x) {
                let j = choose|j: int| 0 <= j < s0.len() && (#[trigger] s0[j].0)@ == x;
                if j != i {
                    assert(s1[j].0@ == x);
                } else {
                    assert(s1[i].0@ == x);
                }
            }
            if x == k {
                assert(s1[i].0@ == x);
            }
        }
        assert forall|x: Seq<u8>| #[trigger] m1.contains_key(x) implies m1[x] == m0.insert(
            k,
            offset,
        )[x] by {
            let j = choose|j: int| 0 <= j < s1.len() && (#[trigger] s1[j].0)@ == x;
            lemma_map_of_at(s1, j);
            if j != i {
                assert(s0[j] == s1[j]);
                lemma_map_of_at(s0, j);
            }
        }
        assert(m1 =~= m0.insert(k, offset));
    }

    /// Drops `key`, returning the offset it had.
    pub fn remove(&mut self, key: &[u8]) -> (r: Option<u64>)
        requires
            old(self).wf(),
        ensures
            final(self).wf(),
            final(self)@ == old(self)@.remove(key@),
            r == (if old(self)@.contains_key(key@) {
                Some(old(self)@[key@])
            } else {
                None::<u64>
            }),
    {
        let ghost s0 = self.entries@;
        match self.find(key) {
            Some(i) => {
                proof {
                    lemma_map_of_at(s0, i as int);
                }
                let (_, off) = self.entries.remove(i);
                let ghost s1 = self.entries@;
                assert(s1 =~= s0.remove(i as int));
                assert(keys_unique(s1)) by {
                    assert forall|a: int, b: int|
                        0 <= a < s1.len() && 0 <= b < s1.len() && (#[trigger] s1[a].0)@
                            == (#[trigger] s1[b].0)@ implies a == b by {
                        let a0 = if a < i { a } else { a + 1 };
                        let b0 = if b < i { b } else { b + 1 };
                        assert(s1[a] == s0[a0]);
                        assert(s1[b] == s0[b0]);
                        assert(s0[a0].0@ == s0[b0].0@);
                    }
                }
                proof {
                    let m0 = map_of(s0);
                    let m1 = map_of(s1);
                    assert forall|x: Seq<u8>| m1.contains_key(x) <==> #[trigger] m0.remove(
                        key@,
                    ).contains_key(x) by {
                        if m1.contains_key(x) {
                            let j = choose|j: int| 0 <= j < s1.len() && (#[trigger] s1[j].0)@ == x;
                            let j0 = if j < i { j } else { j + 1 };
                            assert(s0[j0] == s1[j]);
                            assert(s0[j0].0@ == x);
                        }
                        if m0.contains_key(x) && x != key@ {
                            let j = choose|j: int| 0 <= j < s0.len() && (#[trigger] s0[j].0)@ == x;
                            assert(j != i);
                            let j1 = if j < i { j } else { j - 1 };
                            assert(s1[j1] == s0[j]);
                            assert(s1[j1].0@ == x);
                        }
                    }
                    assert forall|x: Seq<u8>| #[trigger] m1.contains_key(x) implies m1[x] == m0.remove(
                        key@,
                    )[x] by {
                        let j = choose|j: int| 0 <= j < s1.len() && (#[trigger] s1[j].0)@ == x;
                        let j0 = if j < i { j } else { j + 1 };
                        assert(s0[j0] == s1[j]);
                        lemma_map_of_at(s1, j);
                        lemma_map_of_at(s0, j0);
                    }
                    assert(m1 =~= m0.remove(key@));
                }
                Some(off)
            },
            None => {
                assert(map_of(s0) =~= map_of(s0).remove(key@));
                None
            },
        }
    }

    /// Number of keys.
    pub fn len(&self) -> (r: usize)
        requires
            self.wf(),
        ensures
            r == self@.len(),
    {
        proof {
            self.lemma_len();
        }
        self.entries.len()
    }

    proof fn lemma_len(&self)
        requires
            self.wf(),
        ensures
            self@.len() == self.entries@.len(),
    {
        let s = self.entries@;
        let keys = Seq::new(s.len(), |i: int| s[i].0@);
        assert(keys.no_duplicates()) by {
            assert forall|a: int, b: int| 0 <= a < keys.len() && 0 <= b < keys.len() && a != b
                implies keys[a] != keys[b] by {
                assert(keys[a] == s[a].0@);
                assert(keys[b] == s[b].0@);
            }
        }
        assert(self@.dom() =~= keys.to_set()) by {
            assert forall|x: Seq<u8>| self@.dom().contains(x) <==> keys.to_set().contains(x) by {
                if self@.dom().contains(x) {
                    let j = choose|j: int| 0 <= j < s.len() && (#[trigger] s[j].0)@ == x;
                    assert(keys[j] == x);
                }
                if keys.to_set().contains(x) {
                    let j = choose|j: int| 0 <= j < keys.len() && keys[j] == x;
                    assert(s[j].0@ == x);
                }
            }
        }
        keys.unique_seq_to_set();
    }

    /// The entries, each key once, in no particular order.
    pub fn entries(&self) -> (r: &Vec<(Vec<u8>, u64)>)
        requires
            self.wf(),
        ensures
            keys_unique(r@),
            map_of(r@) == self@,
    {
        &self.entries
    }
}

} // verus!
