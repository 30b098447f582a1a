//! A fixed-capacity least-recently-used key/value cache: a hash-index and
//! a recency order kept in agreement under every operation, with the
//! line-oriented command layer that drives it.

use vstd::prelude::*;

pub mod command;
pub mod flags;
pub mod list;
pub mod node_map;
pub mod value;

verus! {

use crate::list::List;
use crate::node_map::NodeMap;
use crate::value::Value;
use crate::value::ValueV;

/// Cache-wide configuration: the capacity bound, fixed at construction.
struct LruConfig {
    capacity: usize,
}

/// Some entry carries key `k`.
pub open spec fn has_key(s: Seq<(Seq<char>, ValueV)>, k: Seq<char>) -> bool {
    exists|i: int| 0 <= i < s.len() && s[i].0 == k
}

/// The position of the entry carrying key `k`.
pub open spec fn key_index(s: Seq<(Seq<char>, ValueV)>, k: Seq<char>) -> int {
    choose|i: int| 0 <= i < s.len() && s[i].0 == k
}

/// Every key names at most one entry.
pub open spec fn distinct_keys(s: Seq<(Seq<char>, ValueV)>) -> bool {
    forall|i: int, j: int|
        #![trigger s[i], s[j]]
        0 <= i < s.len() && 0 <= j < s.len() && i != j ==> s[i].0 != s[j].0
}

/// The state, most recent first, after `set(k, v)` on a cache of capacity
/// `cap` holding `s`: a present key takes the new value and moves to the
/// front; a new key enters at the front, after the last entry is evicted
/// when the cache is full; a capacity of zero admits nothing.
pub open spec fn model_set(
    s: Seq<(Seq<char>, ValueV)>,
    cap: nat,
    k: Seq<char>,
    v: ValueV,
) -> Seq<(Seq<char>, ValueV)> {
    if cap == 0 {
        s
    } else if has_key(s, k) {
        seq![(k, v)] + s.remove(key_index(s, k))
    } else if s.len() >= cap {
        seq![(k, v)] + s.drop_last()
    } else {
        seq![(k, v)] + s
    }
}

/// What `get(k)` returns on a cache holding `s`: the value under `k`, or
/// nothing when `k` is absent.
pub open spec fn model_get_value(s: Seq<(Seq<char>, ValueV)>, k: Seq<char>) -> Option<ValueV> {
    if has_key(s, k) {
        Option::Some(s[key_index(s, k)].1)
    } else {
        Option::None
    }
}

/// The state after `get(k)`: a hit moves the entry to the front, a miss
/// changes nothing.
pub open spec fn model_get_state(s: Seq<(Seq<char>, ValueV)>, k: Seq<char>) -> Seq<
    (Seq<char>, ValueV),
> {
    if has_key(s, k) {
        seq![s[key_index(s, k)]] + s.remove(key_index(s, k))
    } else {
        s
    }
}

/// The cache: the order list owning the entries, the index over them, and
/// the capacity bound.
pub struct Lru {
    refs: NodeMap,
    data: List,
    config: LruConfig,
}

impl Lru {
    /// The entries, most recently used first.
    pub closed spec fn entries(&self) -> Seq<(Seq<char>, ValueV)> {
        self.data.entries()
    }

    /// The capacity bound.
    pub closed spec fn spec_capacity(&self) -> nat {
        self.config.capacity as nat
    }

    /// The number of keys in the index.
    pub closed spec fn index_len(&self) -> nat {
        self.refs.spec_len()
    }

    /// The index maps key `k`.
    pub closed spec fn index_has(&self, k: Seq<char>) -> bool {
        self.refs@.contains_key(k)
    }

    /// The cache invariant: order list and index are each well formed and
    /// always agree: the index maps exactly the keys of the live entries,
    /// each to the slot of its own entry; keys are distinct; the number of
    /// entries stays within the capacity bound.
    pub closed spec fn wf(&self) -> bool {
        &&& self.data.wf()
        &&& self.refs.wf()
        &&& distinct_keys(self.entries())
        &&& self.entries().len() <= self.config.capacity
        &&& self.refs.spec_len() == self.entries().len()
        &&& (forall|i: int|
            0 <= i < self.entries().len() ==> self.refs@.contains_key(
                (#[trigger] self.entries()[i]).0,
            ) && self.refs@[self.entries()[i].0] == self.data.slot_order()[i])
        &&& (forall|k: Seq<char>|
            #[trigger] self.refs@.contains_key(k) ==> has_key(self.entries(), k))
    }

    /// An empty cache with the default capacity bound of five entries.
    pub fn new() -> (r: Self)
        ensures
            r.wf(),
            r.entries() == Seq::<(Seq<char>, ValueV)>::empty(),
            r.spec_capacity() == 5,
    {
        Self::with_capacity(5)
    }

    /// An empty cache holding at most `capacity` entries.
    pub fn with_capacity(capacity: usize) -> (r: Self)
        ensures
            r.wf(),
            r.entries() == Seq::<(Seq<char>, ValueV)>::empty(),
            r.spec_capacity() == capacity,
    {
        let r = Lru { refs: NodeMap::new(), data: List::new(), config: LruConfig { capacity } };
        proof {
            assert(r.wf());
        }
        r
    }

    /// Stores `value` under `key` and makes `key` the most recently used
    /// entry. A present key keeps its entry, which takes the new value and
    /// moves to the front; a new key is admitted after the least recently
    /// used entry is evicted when the cache is full. A capacity of zero
    /// rejects every insertion.
    pub fn set(&mut self, key: String, value: Value)
        requires
            old(self).wf(),
        ensures
            final(self).wf(),
            final(self).entries() == model_set(
                old(self).entries(),
                old(self).spec_capacity(),
                key@,
                value@,
            ),
            final(self).spec_capacity() == old(self).spec_capacity(),
            old(self).spec_capacity() > 0 ==> final(self).entries().len() > 0
                && final(self).entries()[0] == (key@, value@),
    {
        let ghost s0 = old(self).entries();
        let ghost o0 = old(self).data.slot_order();
        if self.config.capacity == 0 {
            return ;
        }
        let looked = self.refs.lookup(&key);
        match looked {
            Some(idx) => {
                proof {
                    old(self).data.lemma_wf_entries();
                    assert(has_key(s0, key@));
                    let i = key_index(s0, key@);
                    assert(0 <= i < s0.len() && s0[i].0 == key@);
                    assert(old(self).entries()[i].0 == key@);
                    assert(old(self).refs@[old(self).entries()[i].0] == old(
                        self,
                    ).data.slot_order()[i]);
                    assert(idx == o0[i]);
                    assert(o0.contains(idx)) by {
                        assert(o0[i] == idx);
                    }
                    assert(o0.index_of(idx) == i) by {
                        let w = o0.index_of(idx);
                        assert(o0[w] == idx);
                    }
                }
                let ghost i = key_index(s0, key@);
                self.data.set_value(idx, value);
                proof {
                    self.data.lemma_wf_entries();
                    assert(self.data.slot_order().index_of(idx) == i) by {
                        let w = self.data.slot_order().index_of(idx);
                        assert(self.data.slot_order()[w] == idx);
                    }
                }
                self.data.move_front(idx);
                proof {
                    self.data.lemma_wf_entries();
                    let s2 = self.entries();
                    let o2 = self.data.slot_order();
                    assert(s2 =~= seq![(key@, value@)] + s0.remove(i));
                    assert(o2 =~= seq![idx] + o0.remove(i));
                    assert(forall|j: int|
                        0 <= j < s0.remove(i).len() ==> #[trigger] s0.remove(i)[j] == s0[(
                        if j < i {
                            j
                        } else {
                            j + 1
                        })] && o0.remove(i)[j] == o0[(if j < i {
                            j
                        } else {
                            j + 1
                        })]);
                    assert(distinct_keys(s2));
                    assert forall|j: int| 0 <= j < s2.len() implies self.refs@.contains_key(
                        (#[trigger] s2[j]).0,
                    ) && self.refs@[s2[j].0] == o2[j] by {
                        if j > 0 {
                            let m: int = if j - 1 < i {
                                j - 1
                            } else {
                                j
                            };
                            assert(s2[j] == s0[m]);
                            assert(o2[j] == o0[m]);
                        }
                    }
                    assert forall|k: Seq<char>| #[trigger]
                        self.refs@.contains_key(k) implies has_key(s2, k) by {
                        let i0 = key_index(s0, k);
                        assert(0 <= i0 < s0.len() && s0[i0].0 == k);
                        if i0 == i {
                            assert(s2[0].0 == k);
                        } else if i0 < i {
                            assert(s2[i0 + 1].0 == k);
                        } else {
                            assert(s2[i0].0 == k);
                        }
                    }
                    assert(self.wf());
                    assert(key_index(s0, key@) == i);
                    assert(self.entries() =~= model_set(
                        s0,
                        old(self).spec_capacity(),
                        key@,
                        value@,
                    ));
                }
            },
            None => {
                proof {
                    assert(!has_key(s0, key@)) by {
                        if has_key(s0, key@) {
                            let i0 = key_index(s0, key@);
                            assert(0 <= i0 < s0.len() && s0[i0].0 == key@);
                        }
                    }
                }
                let ghost evicted = s0.len() == old(self).spec_capacity();
                if self.data.len() == self.config.capacity {
                    let popped = self.data.pop_back();
                    match popped {
                        Some(k) => {
                            proof {
                                assert(k@ == s0.last().0);
                                assert(self.refs@.contains_key(k@)) by {
                                    assert(s0[s0.len() - 1].0 == k@);
                                }
                            }
                            self.refs.remove(&k);
                        },
                        None => {
                            proof {
                                assert(false);
                            }
                        },
                    }
                }
                let ghost s1 = self.entries();
                let ghost o1 = self.data.slot_order();
                let ghost refs1 = self.refs@;
                proof {
                    old(self).data.lemma_wf_entries();
                    self.data.lemma_wf_entries();
                    assert(forall|j: int|
                        0 <= j < s1.len() ==> #[trigger] s1[j] == s0[j] && o1[j] == o0[j]);
                    assert(!refs1.contains_key(key@));
                }
                let idx = self.data.push_front(key.clone(), value);
                self.refs.insert(key, idx);
                proof {
                    self.data.lemma_wf_entries();
                    let s2 = self.entries();
                    let o2 = self.data.slot_order();
                    assert(forall|j: int|
                        1 <= j < s2.len() ==> #[trigger] s2[j] == s1[j - 1] && o2[j] == o1[j - 1]);
                    assert(distinct_keys(s2)) by {
                        assert forall|a: int, b: int|
                            0 <= a < s2.len() && 0 <= b < s2.len() && a != b implies (
                        #[trigger] s2[a]).0 != (#[trigger] s2[b]).0 by {
                            if a != 0 && b != 0 {
                                if evicted {
                                    assert(s2[a].0 == s0[a - 1].0 && s2[b].0 == s0[b - 1].0);
                                } else {
                                    assert(s2[a].0 == s0[a - 1].0 && s2[b].0 == s0[b - 1].0);
                                }
                            }
                        }
                    }
                    assert forall|j: int| 0 <= j < s2.len() implies self.refs@.contains_key(
                        (#[trigger] s2[j]).0,
                    ) && self.refs@[s2[j].0] == o2[j] by {
                        if j > 0 {
                            assert(s2[j] == s0[j - 1]);
                            assert(s2[j].0 != key@);
                            if evicted {
                                assert(s2[j].0 != s0.last().0);
                            }
                        }
                    }
                    assert forall|k2: Seq<char>| #[trigger]
                        self.refs@.contains_key(k2) implies has_key(s2, k2) by {
                        if k2 == key@ {
                            assert(s2[0].0 == k2);
                        } else {
                            assert(refs1.contains_key(k2));
                            let i0 = key_index(s0, k2);
                            assert(0 <= i0 < s0.len() && s0[i0].0 == k2);
                            if evicted {
                                assert(i0 != s0.len() - 1);
                            }
                            assert(s2[i0 + 1].0 == k2);
                        }
                    }
                    assert(self.wf());
                    assert(self.entries() =~= model_set(
                        s0,
                        old(self).spec_capacity(),
                        key@,
                        value@,
                    ));
                }
            },
        }
    }

    /// Returns the value stored under `key`. A hit promotes the entry to
    /// most recently used; a miss returns nothing and leaves the cache
    /// unchanged.
    pub fn get(&mut self, key: String) -> (r: Option<Value>)
        requires
            old(self).wf(),
        ensures
            final(self).wf(),
            (r is Some <==> model_get_value(old(self).entries(), key@) is Some),
            r is Some ==> (r->0)@ == model_get_value(old(self).entries(), key@)->0,
            final(self).entries() == model_get_state(old(self).entries(), key@),
            final(self).spec_capacity() == old(self).spec_capacity(),
            r is Some ==> final(self).entries().len() > 0 && final(self).entries()[0].0 == key@,
    {
        let ghost s0 = old(self).entries();
        let ghost o0 = old(self).data.slot_order();
        let rf = self.refs.lookup(&key);
        if rf.is_none() {
            proof {
                assert(!has_key(s0, key@)) by {
                    if has_key(s0, key@) {
                        let i0 = key_index(s0, key@);
                        assert(0 <= i0 < s0.len() && s0[i0].0 == key@);
                    }
                }
            }
            return None;
        }
        let idx = rf.unwrap();
        proof {
            old(self).data.lemma_wf_entries();
            assert(has_key(s0, key@));
            let i = key_index(s0, key@);
            assert(0 <= i < s0.len() && s0[i].0 == key@);
            assert(old(self).entries()[i].0 == key@);
            assert(old(self).refs@[old(self).entries()[i].0] == old(self).data.slot_order()[i]);
            assert(idx == o0[i]);
            assert(o0.contains(idx)) by {
                assert(o0[i] == idx);
            }
            assert(o0.index_of(idx) == i) by {
                let w = o0.index_of(idx);
                assert(o0[w] == idx);
            }
        }
        let ghost i = key_index(s0, key@);
        self.data.move_front(idx);
        let v = self.data.front_value();
        proof {
            self.data.lemma_wf_entries();
            let s2 = self.entries();
            let o2 = self.data.slot_order();
            assert(s2 =~= seq![s0[i]] + s0.remove(i));
            assert(o2 =~= seq![idx] + o0.remove(i));
            assert(v@ == s0[i].1);
            assert(forall|j: int|
                0 <= j < s0.remove(i).len() ==> #[trigger] s0.remove(i)[j] == s0[(if j < i {
                    j
                } else {
                    j + 1
                })] && o0.remove(i)[j] == o0[(if j < i {
                    j
                } else {
                    j + 1
                })]);
            assert(distinct_keys(s2));
            assert forall|j: int| 0 <= j < s2.len() implies self.refs@.contains_key(
                (#[trigger] s2[j]).0,
            ) && self.refs@[s2[j].0] == o2[j] by {
                if j > 0 {
                    let m: int = if j - 1 < i {
                        j - 1
                    } else {
                        j
                    };
                    assert(s2[j] == s0[m]);
                    assert(o2[j] == o0[m]);
                }
            }
            assert forall|k: Seq<char>| #[trigger] self.refs@.contains_key(k) implies has_key(
                s2,
                k,
            ) by {
                let i0 = key_index(s0, k);
                assert(0 <= i0 < s0.len() && s0[i0].0 == k);
                if i0 == i {
                    assert(s2[0].0 == k);
                } else if i0 < i {
                    assert(s2[i0 + 1].0 == k);
                } else {
                    assert(s2[i0].0 == k);
                }
            }
            assert(self.wf());
            assert(self.entries() =~= model_get_state(s0, key@));
        }
        Some(v)
    }
}

/// Invariant law: the index and the order list always have the same size,
/// and that size never exceeds the capacity bound.
pub proof fn lemma_index_list_agree(c: &Lru)
    requires
        c.wf(),
    ensures
        c.index_len() == c.entries().len(),
        c.entries().len() <= c.spec_capacity(),
{
}

/// Invariant law: every key the index holds is reached by walking the
/// order list, at an entry carrying that key.
pub proof fn lemma_index_key_reachable(c: &Lru, k: Seq<char>)
    requires
        c.wf(),
        c.index_has(k),
    ensures
        has_key(c.entries(), k),
        0 <= key_index(c.entries(), k) < c.entries().len(),
        c.entries()[key_index(c.entries(), k)].0 == k,
{
    let i = key_index(c.entries(), k);
    assert(0 <= i < c.entries().len() && c.entries()[i].0 == k);
}

/// Invariant law: a key absent from the order list is absent from the
/// index as well; with the eviction law, an evicted key leaves both.
pub proof fn lemma_absent_key_not_indexed(c: &Lru, k: Seq<char>)
    requires
        c.wf(),
        !has_key(c.entries(), k),
    ensures
        !c.index_has(k),
{
}

/// Recency law: `set(k, v)` on a cache that admits anything puts k at the
/// head of the order, holding v.
pub proof fn lemma_set_recency(s: Seq<(Seq<char>, ValueV)>, cap: nat, k: Seq<char>, v: ValueV)
    requires
        cap > 0,
    ensures
        model_set(s, cap, k, v).len() > 0,
        model_set(s, cap, k, v)[0] == (k, v),
{
}

/// Recency law: a hitting `get(k)` puts k at the head of the order and
/// returns the value found there.
pub proof fn lemma_get_recency(s: Seq<(Seq<char>, ValueV)>, k: Seq<char>)
    requires
        has_key(s, k),
    ensures
        model_get_state(s, k).len() > 0,
        model_get_state(s, k)[0].0 == k,
        model_get_value(s, k) == Option::Some(model_get_state(s, k)[0].1),
{
    let i = key_index(s, k);
    assert(0 <= i < s.len() && s[i].0 == k);
}

/// Eviction law: a full cache admitting a new key evicts exactly the
/// least recently used entry: the old tail's key becomes absent, and every
/// other entry survives, one position further back, unchanged.
pub proof fn lemma_eviction(s: Seq<(Seq<char>, ValueV)>, cap: nat, k: Seq<char>, v: ValueV)
    requires
        distinct_keys(s),
        s.len() == cap,
        cap > 0,
        !has_key(s, k),
    ensures
        model_set(s, cap, k, v).len() == cap,
        !has_key(model_set(s, cap, k, v), s.last().0),
        model_set(s, cap, k, v)[0] == (k, v),
        forall|j: int| 0 <= j < s.len() - 1 ==> model_set(s, cap, k, v)[j + 1] == s[j],
{
    let t = model_set(s, cap, k, v);
    assert(t =~= seq![(k, v)] + s.drop_last());
    assert forall|i: int| 0 <= i < t.len() implies (#[trigger] t[i]).0 != s.last().0 by {
        if i == 0 {
            assert(s[s.len() - 1].0 == s.last().0);
        } else {
            assert(t[i] == s[i - 1]);
        }
    }
}

/// Identity law: repeating `set(k, v)` with the same value leaves the
/// state of the first `set` exactly as it was: k stays at the front and
/// the size does not change.
pub proof fn lemma_set_idempotent(s: Seq<(Seq<char>, ValueV)>, cap: nat, k: Seq<char>, v: ValueV)
    requires
        distinct_keys(s),
        cap > 0,
    ensures
        model_set(model_set(s, cap, k, v), cap, k, v) == model_set(s, cap, k, v),
{
    let t = model_set(s, cap, k, v);
    assert(t[0] == (k, v));
    assert(has_key(t, k)) by {
        assert(t[0].0 == k);
    }
    assert forall|i: int| 0 < i < t.len() implies (#[trigger] t[i]).0 != k by {
        if has_key(s, k) {
            let p = key_index(s, k);
            assert(0 <= p < s.len() && s[p].0 == k);
            assert(t[i] == s.remove(p)[i - 1]);
            assert(s.remove(p)[i - 1] == s[(if i - 1 < p {
                i - 1
            } else {
                i
            })]);
        } else {
            assert(t[i] == s[i - 1]);
        }
    }
    assert(key_index(t, k) == 0) by {
        let w = key_index(t, k);
        assert(0 <= w < t.len() && t[w].0 == k);
    }
    assert(model_set(t, cap, k, v) =~= t);
}

/// Miss law: `get` of an absent key yields nothing and leaves the state
/// untouched.
pub proof fn lemma_get_miss(s: Seq<(Seq<char>, ValueV)>, k: Seq<char>)
    requires
        !has_key(s, k),
    ensures
        model_get_value(s, k) is None,
        model_get_state(s, k) == s,
{
}

} // verus!
