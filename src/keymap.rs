//! An ordered map keyed by byte strings, kept as a sorted vector of entries.
use vstd::prelude::*;
use crate::bytes::{lex_lt, compare_bytes, lemma_lex_irreflexive, lemma_lex_asymmetric, lemma_lex_transitive, lemma_lex_total};

verus! {

/// Keys strictly ascending in lexicographic byte order.
pub open spec fn sorted_keys(s: Seq<Seq<u8>>) -> bool {
    forall|i: int, j: int| 0 <= i < j < s.len() ==> lex_lt(#[trigger] s[i], #[trigger] s[j])
}

/// An ordered map from byte strings to values. Entries are stored in ascending
/// key order; the abstract contents are a `Map` from key bytes to value views.
pub struct KeyMap<V: View> {
    keys: Vec<Vec<u8>>,
    vals: Vec<V>,
    contents: Ghost<Map<Seq<u8>, V::V>>,
}

impl<V: View> View for KeyMap<V> {
    type V = Map<Seq<u8>, V::V>;

    closed spec fn view(&self) -> Map<Seq<u8>, V::V> {
        self.contents@
    }
}

impl<V: View> KeyMap<V> {
    /// The keys in stored (ascending) order.
    pub closed spec fn key_seq(&self) -> Seq<Seq<u8>> {
        Seq::new(self.keys@.len(), |i: int| self.keys@[i]@)
    }

    /// The values in the order of their keys.
    pub closed spec fn val_seq(&self) -> Seq<V::V> {
        Seq::new(self.vals@.len(), |i: int| self.vals@[i]@)
    }

    pub closed spec fn wf(&self) -> bool {
        &&& self.keys@.len() == self.vals@.len()
        &&& sorted_keys(self.key_seq())
        &&& forall|i: int| 0 <= i < self.keys@.len() ==> {
            &&& #[trigger] self.contents@.contains_key(self.keys@[i]@)
            &&& self.contents@[self.keys@[i]@] == self.vals@[i]@
        }
        &&& forall|k: Seq<u8>| #[trigger] self.contents@.contains_key(k) ==> exists|i: int|
            0 <= i < self.keys@.len() && self.keys@[i]@ == k
    }

    /// What a well-formed map guarantees about its stored entries.
    pub proof fn lemma_entries(&self)
        requires
            self.wf(),
        ensures
            self.key_seq().len() == self.val_seq().len(),
            sorted_keys(self.key_seq()),
            forall|i: int| 0 <= i < self.key_seq().len() ==> {
                &&& #[trigger] self@.contains_key(self.key_seq()[i])
                &&& self@[self.key_seq()[i]] == self.val_seq()[i]
            },
            forall|k: Seq<u8>| #[trigger] self@.contains_key(k) ==> exists|i: int|
                0 <= i < self.key_seq().len() && self.key_seq()[i] == k,
            self@.dom().finite(),
            self@.len() == self.key_seq().len(),
    {
        let ks = self.key_seq();
        assert forall|k: Seq<u8>| #[trigger] self@.contains_key(k) implies exists|i: int|
            0 <= i < ks.len() && ks[i] == k by {
            let i = choose|i: int| 0 <= i < self.keys@.len() && self.keys@[i]@ == k;
            assert(ks[i] == k);
        }
        assert(ks.no_duplicates()) by {
            assert forall|i: int, j: int| 0 <= i < ks.len() && 0 <= j < ks.len() && i != j
                implies ks[i] != ks[j] by {
                if i < j {
                    assert(lex_lt(ks[i], ks[j]));
                } else {
                    assert(lex_lt(ks[j], ks[i]));
                }
                lemma_lex_irreflexive(ks[i]);
            }
        }
        assert(self@.dom() =~= ks.to_set()) by {
            assert forall|k: Seq<u8>| self@.dom().contains(k) implies ks.to_set().contains(k) by {
                let i = choose|i: int| 0 <= i < ks.len() && ks[i] == k;
                assert(ks.contains(k));
            }
            assert forall|k: Seq<u8>| ks.to_set().contains(k) implies self@.dom().contains(k) by {
                assert(ks.contains(k));
                let i = choose|i: int| 0 <= i < ks.len() && ks[i] == k;
                assert(self@.contains_key(self.keys@[i]@));
            }
        }
        ks.unique_seq_to_set();
    }

    /// An empty map.
    pub fn new() -> (r: Self)
        ensures
            r.wf(),
            r@ == Map::<Seq<u8>, V::V>::empty(),
    {
        KeyMap { keys: Vec::new(), vals: Vec::new(), contents: Ghost(Map::empty()) }
    }

    /// The number of entries.
    pub fn len(&self) -> (r: usize)
        requires
            self.wf(),
        ensures
            r == self@.len(),
            r == self.key_seq().len(),
    {
        proof {
            self.lemma_entries();
        }
        self.keys.len()
    }

    /// The first position whose key is not below `k`, and whether `k` is stored there.
    pub fn position(&self, k: &Vec<u8>) -> (r: (bool, usize))
        requires
            self.wf(),
        ensures
            r.1 <= self.key_seq().len(),
            forall|i: int| 0 <= i < r.1 ==> lex_lt(#[trigger] self.key_seq()[i], k@),
            forall|i: int| r.1 <= i < self.key_seq().len() ==> !lex_lt(#[trigger] self.key_seq()[i], k@),
            r.0 == (r.1 < self.key_seq().len() && self.key_seq()[r.1 as int] == k@),
            r.0 == self@.contains_key(k@),
    {
        let ghost ks = self.key_seq();
        let mut i: usize = 0;
        while i < self.keys.len()
            invariant
                self.wf(),
                ks == self.key_seq(),
                i <= self.keys.len(),
                forall|j: int| 0 <= j < i ==> lex_lt(#[trigger] ks[j], k@),
            ensures
                i <= self.keys.len(),
                forall|j: int| 0 <= j < i ==> lex_lt(#[trigger] ks[j], k@),
                i < self.keys.len() ==> !lex_lt(ks[i as int], k@),
            decreases self.keys.len() - i,
        {
            let c = compare_bytes(&self.keys[i], k);
            if c >= 0 {
                break;
            }
            i = i + 1;
        }
        proof {
            assert forall|j: int| i <= j < ks.len() implies !lex_lt(#[trigger] ks[j], k@) by {
                if j > i {
                    assert(lex_lt(ks[i as int], ks[j]));
                    if lex_lt(ks[j], k@) {
                        lemma_lex_transitive(ks[i as int], ks[j], k@);
                    }
                }
            }
        }
        let found = i < self.keys.len() && compare_bytes(&self.keys[i], k) == 0;
        proof {
            self.lemma_entries();
            if self@.contains_key(k@) {
                let j = choose|j: int| 0 <= j < ks.len() && ks[j] == k@;
                lemma_lex_irreflexive(k@);
                if j > i {
                    assert(lex_lt(ks[i as int], ks[j]));
                    assert(!lex_lt(ks[i as int], k@));
                }
            }
        }
        (found, i)
    }

    /// Whether `k` has an entry.
    pub fn contains_key(&self, k: &Vec<u8>) -> (r: bool)
        requires
            self.wf(),
        ensures
            r == self@.contains_key(k@),
    {
        self.position(k).0
    }

    /// The value stored under `k`, if any.
    pub fn get(&self, k: &Vec<u8>) -> (r: Option<&V>)
        requires
            self.wf(),
        ensures
            r.is_some() == self@.contains_key(k@),
            r.is_some() ==> r.unwrap()@ == self@[k@],
    {
        let (found, i) = self.position(k);
        if found {
            Some(&self.vals[i])
        } else {
            None
        }
    }

    /// The key at stored position `i`.
    pub fn key_at(&self, i: usize) -> (r: &Vec<u8>)
        requires
            self.wf(),
            i < self.key_seq().len(),
        ensures
            r@ == self.key_seq()[i as int],
    {
        &self.keys[i]
    }

    /// The value at stored position `i`.
    pub fn val_at(&self, i: usize) -> (r: &V)
        requires
            self.wf(),
            i < self.key_seq().len(),
        ensures
            r@ == self.val_seq()[i as int],
    {
        &self.vals[i]
    }

    /// Inserts `v` under `k`, replacing any earlier value.
    pub fn upsert(&mut self, k: Vec<u8>, v: V)
        requires
            old(self).wf(),
        ensures
            final(self).wf(),
            final(self)@ == old(self)@.insert(k@, v@),
    {
        let (found, i) = self.position(&k);
        let ghost ks = self.key_seq();
        let ghost old_keys = self.keys@;
        let ghost old_vals = self.vals@;
        let ghost m = self.contents@;
        let ghost kv = k@;
        let ghost vv = v@;
        if found {
            self.vals.set(i, v);
            self.contents = Ghost(m.insert(kv, vv));
            proof {
                assert(self.key_seq() =~= ks);
                assert forall|j: int| 0 <= j < self.keys@.len() implies {
                    &&& #[trigger] self.contents@.contains_key(self.keys@[j]@)
                    &&& self.contents@[self.keys@[j]@] == self.vals@[j]@
                } by {
                    if j != i {
                        assert(ks[j] != ks[i as int]) by {
                            lemma_lex_irreflexive(ks[j]);
                            if j < i {
                                assert(lex_lt(ks[j], ks[i as int]));
                            } else {
                                assert(lex_lt(ks[i as int], ks[j]));
                            }
                        }
                    }
                }
                assert forall|q: Seq<u8>| #[trigger] self.contents@.contains_key(q) implies exists|j: int|
                    0 <= j < self.keys@.len() && self.keys@[j]@ == q by {
                    if q == kv {
                        assert(self.keys@[i as int]@ == q);
                    } else {
                        assert(m.contains_key(q));
                    }
                }
            }
        } else {
            self.keys.insert(i, k);
            self.vals.insert(i, v);
            self.contents = Ghost(m.insert(kv, vv));
            proof {
                let nks = self.key_seq();
                assert(nks =~= ks.insert(i as int, kv));
                assert forall|j: int| 0 <= j < ks.len() && j != i implies ks[j] != kv by {
                    lemma_lex_irreflexive(kv);
                }
                assert forall|a: int, b: int| 0 <= a < b < nks.len() implies lex_lt(#[trigger] nks[a], #[trigger] nks[b]) by {
                    if b < i {
                        assert(nks[a] == ks[a] && nks[b] == ks[b]);
                    } else if b == i {
                        assert(nks[a] == ks[a]);
                    } else if a == i {
                        assert(nks[b] == ks[b - 1]);
                        assert(!lex_lt(ks[b - 1], kv));
                        lemma_lex_total(ks[b - 1], kv);
                        if ks[b - 1] == kv {
                            if b - 1 == i {
                            } else {
                                assert(lex_lt(ks[i as int], ks[b - 1]));
                                assert(!lex_lt(ks[i as int], kv));
                                lemma_lex_total(ks[i as int], kv);
                            }
                        }
                    } else if a < i {
                        assert(nks[a] == ks[a] && nks[b] == ks[b - 1]);
                        if a < b - 1 {
                        } else {
                        }
                        assert(lex_lt(ks[a], kv));
                        assert(!lex_lt(ks[b - 1], kv));
                        lemma_lex_total(ks[b - 1], kv);
                        if ks[b - 1] != kv {
                            lemma_lex_transitive(ks[a], kv, ks[b - 1]);
                        }
                    } else {
                        assert(nks[a] == ks[a - 1] && nks[b] == ks[b - 1]);
                    }
                }
                assert forall|j: int| 0 <= j < self.keys@.len() implies {
                    &&& #[trigger] self.contents@.contains_key(self.keys@[j]@)
                    &&& self.contents@[self.keys@[j]@] == self.vals@[j]@
                } by {
                    assert(self.keys@[j]@ == nks[j]);
                    if j < i {
                        assert(self.keys@[j] == old_keys[j]);
                        assert(self.vals@[j] == old_vals[j]);
                        assert(nks[j] != kv) by {
                            assert(lex_lt(ks[j], kv));
                            lemma_lex_irreflexive(kv);
                        }
                    } else if j > i {
                        assert(self.keys@[j] == old_keys[j - 1]);
                        assert(self.vals@[j] == old_vals[j - 1]);
                        assert(nks[j] != kv) by {
                            assert(nks[i as int] == kv);
                            assert(lex_lt(nks[i as int], nks[j]));
                            lemma_lex_irreflexive(kv);
                        }
                    }
                }
                assert forall|q: Seq<u8>| #[trigger] self.contents@.contains_key(q) implies exists|j: int|
                    0 <= j < self.keys@.len() && self.keys@[j]@ == q by {
                    if q == kv {
                        assert(self.keys@[i as int]@ == q);
                    } else {
                        assert(m.contains_key(q));
                        let j = choose|j: int| 0 <= j < old_keys.len() && old_keys[j]@ == q;
                        if j < i {
                            assert(self.keys@[j] == old_keys[j]);
                        } else {
                            assert(self.keys@[j + 1] == old_keys[j]);
                        }
                    }
                }
            }
        }
    }

    /// Removes the entry under `k`; returns whether there was one.
    pub fn remove(&mut self, k: &Vec<u8>) -> (r: bool)
        requires
            old(self).wf(),
        ensures
            final(self).wf(),
            final(self)@ == old(self)@.remove(k@),
            r == old(self)@.contains_key(k@),
    {
        let (found, i) = self.position(k);
        if !found {
            proof {
                assert(self@.remove(k@) =~= self@);
            }
            return false;
        }
        let ghost ks = self.key_seq();
        let ghost old_keys = self.keys@;
        let ghost old_vals = self.vals@;
        let ghost m = self.contents@;
        let ghost kv = k@;
        self.keys.remove(i);
        self.vals.remove(i);
        self.contents = Ghost(m.remove(kv));
        proof {
            let nks = self.key_seq();
            assert(nks =~= ks.remove(i as int));
            assert forall|a: int, b: int| 0 <= a < b < nks.len() implies lex_lt(#[trigger] nks[a], #[trigger] nks[b]) by {
                if b < i {
                    assert(nks[a] == ks[a] && nks[b] == ks[b]);
                } else if a < i {
                    assert(nks[a] == ks[a] && nks[b] == ks[b + 1]);
                } else {
                    assert(nks[a] == ks[a + 1] && nks[b] == ks[b + 1]);
                }
            }
            assert forall|j: int| 0 <= j < self.keys@.len() implies {
                &&& #[trigger] self.contents@.contains_key(self.keys@[j]@)
                &&& self.contents@[self.keys@[j]@] == self.vals@[j]@
            } by {
                lemma_lex_irreflexive(kv);
                if j < i {
                    assert(self.keys@[j] == old_keys[j]);
                    assert(self.vals@[j] == old_vals[j]);
                    assert(lex_lt(ks[j], ks[i as int]));
                } else {
                    assert(self.keys@[j] == old_keys[j + 1]);
                    assert(self.vals@[j] == old_vals[j + 1]);
                    assert(lex_lt(ks[i as int], ks[j + 1]));
                }
            }
            assert forall|q: Seq<u8>| #[trigger] self.contents@.contains_key(q) implies exists|j: int|
                0 <= j < self.keys@.len() && self.keys@[j]@ == q by {
                assert(m.contains_key(q));
                let j = choose|j: int| 0 <= j < old_keys.len() && old_keys[j]@ == q;
                if j < i {
                    assert(self.keys@[j] == old_keys[j]);
                } else {
                    assert(j != i);
                    assert(self.keys@[j - 1] == old_keys[j]);
                }
            }
        }
        true
    }
}

} // verus!
