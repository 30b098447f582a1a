//! The index: a mapping from key to the arena slot of the key's entry in
//! the order list, giving entry lookup without walking the order. Held as
//! a vector of key/slot pairs whose keys are pairwise distinct.

use vstd::prelude::*;

verus! {

/// A mapping from key to slot index.
pub struct NodeMap {
    pairs: Vec<(String, usize)>,
}

impl View for NodeMap {
    type V = Map<Seq<char>, usize>;

    /// The mapping as a mathematical map from key to slot index.
    closed spec fn view(&self) -> Map<Seq<char>, usize> {
        Map::new(
            |k: Seq<char>| exists|i: int| self.match_at(k, i),
            |k: Seq<char>| self.pairs@[choose|i: int| self.match_at(k, i)].1,
        )
    }
}

impl NodeMap {
    /// The pair at position `i` carries key `k`.
    pub closed spec fn match_at(&self, k: Seq<char>, i: int) -> bool {
        0 <= i < self.pairs@.len() && self.pairs@[i].0@ == k
    }

    /// The number of keys in the mapping.
    pub closed spec fn spec_len(&self) -> nat {
        self.pairs@.len()
    }

    /// Keys are pairwise distinct, so each key names one slot.
    pub closed spec fn wf(&self) -> bool {
        forall|i: int, j: int|
            #![trigger self.pairs@[i], self.pairs@[j]]
            0 <= i < self.pairs@.len() && 0 <= j < self.pairs@.len() && i != j
                ==> self.pairs@[i].0@ != self.pairs@[j].0@
    }

    /// An empty mapping.
    pub fn new() -> (r: Self)
        ensures
            r.wf(),
            r@ == Map::<Seq<char>, usize>::empty(),
            r.spec_len() == 0,
    {
        let r = NodeMap { pairs: Vec::new() };
        proof {
            assert(r@ =~= Map::<Seq<char>, usize>::empty());
        }
        r
    }

    /// The slot mapped to `key`, or nothing when `key` is absent.
    pub fn lookup(&self, key: &String) -> (r: Option<usize>)
        requires
            self.wf(),
        ensures
            match r {
                Option::Some(idx) => self@.contains_key(key@) && self@[key@] == idx,
                Option::None => !self@.contains_key(key@),
            },
    {
        let n = self.pairs.len();
        let mut j: usize = 0;
        while j < n
            invariant
                n == self.pairs@.len(),
                j <= n,
                forall|i: int| 0 <= i < j ==> self.pairs@[i].0@ != key@,
                self.wf(),
            decreases n - j,
        {
            if self.pairs[j].0 == *key {
                proof {
                    assert(self.match_at(key@, j as int));
                    let w = choose|i: int| self.match_at(key@, i);
                    assert(self.match_at(key@, w));
                    assert(w == j as int);
                }
                return Some(self.pairs[j].1);
            }
            j = j + 1;
        }
        proof {
            assert forall|i: int| !self.match_at(key@, i) by {}
        }
        None
    }

    /// Removes the mapping for `key`, if any.
    pub fn remove(&mut self, key: &String)
        requires
            old(self).wf(),
        ensures
            final(self).wf(),
            final(self)@ == old(self)@.remove(key@),
            final(self).spec_len() == old(self).spec_len() - (if old(self)@.contains_key(key@) {
                1int
            } else {
                0int
            }),
    {
        let n = self.pairs.len();
        let mut j: usize = 0;
        while j < n
            invariant
                n == self.pairs@.len(),
                j <= n,
                forall|i: int| 0 <= i < j ==> self.pairs@[i].0@ != key@,
                self.wf(),
                *self == *old(self),
            decreases n - j,
        {
            if self.pairs[j].0 == *key {
                proof {
                    assert(old(self).match_at(key@, j as int));
                }
                self.pairs.remove(j);
                proof {
                    let oldp = old(self).pairs@;
                    let newp = self.pairs@;
                    assert(forall|i: int|
                        0 <= i < newp.len() ==> #[trigger] newp[i] == (if i < j {
                            oldp[i]
                        } else {
                            oldp[i + 1]
                        }));
                    assert forall|k: Seq<char>, i: int| self.match_at(k, i) implies (old(
                    self).match_at(k, if i < j { i } else { i + 1 }) && k != key@) by {
                        if i >= j {
                            assert(oldp[i + 1].0@ != key@);
                        }
                    }
                    assert forall|k: Seq<char>, i: int|
                        old(self).match_at(k, i) && k != key@ implies self.match_at(
                        k,
                        if i < j {
                            i
                        } else {
                            i - 1
                        },
                    ) by {
                        assert(i != j);
                    }
                    assert forall|k: Seq<char>| #[trigger]
                        self@.contains_key(k) implies old(self)@.remove(key@).contains_key(k)
                        && self@[k] == old(self)@.remove(key@)[k] by {
                        let i = choose|i: int| self.match_at(k, i);
                        assert(self.match_at(k, i));
                        let i2: int = if i < j { i } else { i + 1 };
                        assert(old(self).match_at(k, i2));
                        let w = choose|i: int| old(self).match_at(k, i);
                        assert(old(self).match_at(k, w));
                        assert(w == i2);
                    }
                    assert forall|k: Seq<char>| #[trigger]
                        old(self)@.remove(key@).contains_key(k) implies self@.contains_key(k) by {
                        let i = choose|i: int| old(self).match_at(k, i);
                        assert(old(self).match_at(k, i));
                        assert(self.match_at(k, if i < j { i } else { i - 1 }));
                    }
                    assert(self@ =~= old(self)@.remove(key@));
                    assert(old(self)@.contains_key(key@));
                }
                return ;
            }
            j = j + 1;
        }
        proof {
            assert forall|i: int| !self.match_at(key@, i) by {}
            assert(!old(self)@.contains_key(key@));
            assert(self@ =~= old(self)@.remove(key@));
        }
    }

    /// Maps `key` to `idx`, overwriting any prior mapping for that key.
    pub fn insert(&mut self, key: String, idx: usize)
        requires
            old(self).wf(),
        ensures
            final(self).wf(),
            final(self)@ == old(self)@.insert(key@, idx),
            final(self).spec_len() == old(self).spec_len() + (if old(self)@.contains_key(key@) {
                0int
            } else {
                1int
            }),
    {
        self.remove(&key);
        let ghost mid = *self;
        self.pairs.push((key, idx));
        proof {
            let newp = self.pairs@;
            let last = newp.len() - 1;
            assert(!mid@.contains_key(newp[last].0@));
            assert(forall|i: int| 0 <= i < last ==> !mid.match_at(newp[last].0@, i));
            assert forall|i: int, j: int|
                0 <= i < newp.len() && 0 <= j < newp.len() && i != j implies #[trigger] newp[i].0@
                != #[trigger] newp[j].0@ by {
                if i < last && j < last {
                    assert(mid.pairs@[i] == newp[i]);
                    assert(mid.pairs@[j] == newp[j]);
                } else if i < last {
                    assert(!mid.match_at(newp[last].0@, i));
                } else {
                    assert(!mid.match_at(newp[last].0@, j));
                }
            }
            assert(self.wf());
            assert forall|k: Seq<char>| #[trigger]
                self@.contains_key(k) implies mid@.insert(newp[last].0@, idx).contains_key(k)
                && self@[k] == mid@.insert(newp[last].0@, idx)[k] by {
                let i = choose|i: int| self.match_at(k, i);
                assert(self.match_at(k, i));
                if k == newp[last].0@ {
                    assert(i == last);
                } else {
                    assert(mid.match_at(k, i));
                    let w = choose|i: int| mid.match_at(k, i);
                    assert(mid.match_at(k, w));
                    assert(w == i);
                }
            }
            assert forall|k: Seq<char>| #[trigger]
                mid@.insert(newp[last].0@, idx).contains_key(k) implies self@.contains_key(k) by {
                if k != newp[last].0@ {
                    let i = choose|i: int| mid.match_at(k, i);
                    assert(mid.match_at(k, i));
                    assert(self.match_at(k, i));
                } else {
                    assert(self.match_at(k, last));
                }
            }
            assert(self@ =~= mid@.insert(newp[last].0@, idx));
            assert(old(self)@.remove(newp[last].0@).insert(newp[last].0@, idx) =~= old(
                self,
            )@.insert(newp[last].0@, idx));
            assert(self@ =~= old(self)@.insert(newp[last].0@, idx));
        }
    }
}

} // verus!
