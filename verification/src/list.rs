//! The order list: a doubly-linked sequence of entries expressing recency,
//! most recent at the front. Nodes live in an arena of slots; every link is
//! a stable slot index, so a reference to a node stays valid while the node
//! is live, wherever the node moves in the order.

use vstd::prelude::*;
use crate::value::Value;
use crate::value::ValueV;

verus! {

/// One slot of the order list: a key/value pair and the links to its
/// neighbours, each link an index into the list's slot arena.
pub struct Node {
    pub next: Option<usize>,
    pub prev: Option<usize>,
    pub value: Value,
    pub key: String,
}

impl Node {
    /// The key held by this node.
    pub open spec fn spec_key(&self) -> Seq<char> {
        self.key@
    }

    /// A fresh, unlinked node.
    pub fn new(key: String, value: Value) -> (r: Self)
        ensures
            r.next is None,
            r.prev is None,
            r.value == value,
            r.spec_key() == key@,
    {
        Node { next: None, prev: None, key, value }
    }

    /// A node with no successor is the tail of its list.
    pub fn is_tail(&self) -> (r: bool)
        ensures
            r == (self.next is None),
    {
        self.next.is_none()
    }

    /// A node with no predecessor is the head of its list.
    pub fn is_head(&self) -> (r: bool)
        ensures
            r == (self.prev is None),
    {
        self.prev.is_none()
    }
}

/// The doubly-linked order list over an arena of slots. Slots freed by
/// `pop_back` are reused by later pushes.
pub struct List {
    slots: Vec<Node>,
    free: Vec<usize>,
    head: Option<usize>,
    tail: Option<usize>,
    len: usize,
    order: Ghost<Seq<usize>>,
}

impl List {
    /// The slot index of each live entry, most recent first.
    pub closed spec fn slot_order(&self) -> Seq<usize> {
        self.order@
    }

    /// The live entries, most recent first: the key and value of each.
    pub closed spec fn entries(&self) -> Seq<(Seq<char>, ValueV)> {
        Seq::new(
            self.order@.len(),
            |i: int|
                (
                    self.slots@[self.order@[i] as int].spec_key(),
                    self.slots@[self.order@[i] as int].value@,
                ),
        )
    }

    /// The backward link of the live slot at position `i` points at the
    /// live slot before it, and the first live slot has none.
    pub closed spec fn prev_ok(&self, i: int) -> bool {
        self.slots@[self.order@[i] as int].prev == (if i == 0 {
            Option::<usize>::None
        } else {
            Option::Some(self.order@[i - 1])
        })
    }

    /// The forward link of the live slot at position `i` points at the
    /// live slot after it, and the last live slot has none.
    pub closed spec fn next_ok(&self, i: int) -> bool {
        self.slots@[self.order@[i] as int].next == (if i == self.order@.len() - 1 {
            Option::<usize>::None
        } else {
            Option::Some(self.order@[i + 1])
        })
    }

    /// Structural well-formedness: the ghost order names distinct live
    /// slots; the links of consecutive live slots point at each other;
    /// head and tail name the first and last live slot; free slots are
    /// distinct and never live.
    pub closed spec fn wf(&self) -> bool {
        &&& self.len == self.order@.len()
        &&& self.order@.len() + self.free@.len() <= self.slots@.len()
        &&& (forall|i: int|
            0 <= i < self.order@.len() ==> (#[trigger] self.order@[i]) < self.slots@.len())
        &&& self.order@.no_duplicates()
        &&& (forall|i: int|
            0 <= i < self.free@.len() ==> (#[trigger] self.free@[i]) < self.slots@.len())
        &&& self.free@.no_duplicates()
        &&& (forall|i: int, j: int|
            #![trigger self.order@[i], self.free@[j]]
            0 <= i < self.order@.len() && 0 <= j < self.free@.len()
                ==> self.order@[i] != self.free@[j])
        &&& (forall|i: int| 0 <= i < self.order@.len() ==> #[trigger] self.prev_ok(i))
        &&& (forall|i: int| 0 <= i < self.order@.len() ==> #[trigger] self.next_ok(i))
        &&& self.head == (if self.order@.len() == 0 {
            Option::<usize>::None
        } else {
            Option::Some(self.order@[0])
        })
        &&& self.tail == (if self.order@.len() == 0 {
            Option::<usize>::None
        } else {
            Option::Some(self.order@[self.order@.len() - 1])
        })
    }

    /// An empty order list.
    pub fn new() -> (r: Self)
        ensures
            r.wf(),
            r.entries() == Seq::<(Seq<char>, ValueV)>::empty(),
            r.slot_order() == Seq::<usize>::empty(),
    {
        let r = List {
            slots: Vec::new(),
            free: Vec::new(),
            head: None,
            tail: None,
            len: 0,
            order: Ghost(Seq::empty()),
        };
        proof {
            assert(r.entries() =~= Seq::<(Seq<char>, ValueV)>::empty());
        }
        r
    }

    /// The number of live entries.
    #[inline]
    pub fn len(&self) -> (r: usize)
        requires
            self.wf(),
        ensures
            r == self.entries().len(),
    {
        self.len
    }

    /// Links the node already stored at slot `idx` in at the front.
    /// The node's links must already be set for that position.
    #[verifier::rlimit(50)]
    fn push_front_node(&mut self, idx: usize)
        requires
            old(self).wf(),
            idx < old(self).slots@.len(),
            !old(self).slot_order().contains(idx),
            !old(self).free@.contains(idx),
            old(self).slot_order().len() + old(self).free@.len() < old(self).slots@.len(),
            old(self).slots@[idx as int].prev is None,
            old(self).slots@[idx as int].next == old(self).head,
        ensures
            final(self).wf(),
            final(self).slot_order() == seq![idx] + old(self).slot_order(),
            final(self).entries() == seq![
                (old(self).slots@[idx as int].spec_key(), old(self).slots@[idx as int].value@),
            ] + old(self).entries(),
            final(self).free@ == old(self).free@,
            final(self).slots@.len() == old(self).slots@.len(),
    {
        match self.head {
            None => {
                self.tail = Some(idx);
            },
            Some(h) => {
                self.slots[h].prev = Some(idx);
            },
        }
        self.head = Some(idx);
        proof {
            assert(self.len < self.slots.len());
        }
        self.len = self.len + 1;
        self.order = Ghost(seq![idx] + self.order@);
        proof {
            let old_order = old(self).slot_order();
            let new_order = self.order@;
            assert(new_order[0] == idx);
            assert(forall|i: int| 1 <= i < new_order.len() ==> #[trigger] new_order[i]
                == old_order[i - 1]);
            assert(new_order.no_duplicates());
            assert forall|i: int| 0 <= i < new_order.len() implies #[trigger] self.prev_ok(i) by {
                if i == 0 {
                } else {
                    assert(old(self).prev_ok(i - 1));
                    if i > 1 {
                        assert(old_order[i - 1] != old_order[0]);
                    }
                }
            }
            assert forall|i: int| 0 <= i < new_order.len() implies #[trigger] self.next_ok(i) by {
                if i > 0 {
                    assert(old(self).next_ok(i - 1));
                    if i > 1 {
                        assert(old_order[i - 1] != old_order[0]);
                    }
                }
            }
            assert(self.entries() =~= seq![
                (old(self).slots@[idx as int].spec_key(), old(self).slots@[idx as int].value@),
            ] + old(self).entries());
            assert(self.slot_order() == seq![idx] + old(self).slot_order());
        }
    }

    /// Creates a new entry holding `key` and `value`, links it at the
    /// front, and returns its slot index: a stable reference for later
    /// constant-time operations on this entry.
    pub fn push_front(&mut self, key: String, value: Value) -> (idx: usize)
        requires
            old(self).wf(),
        ensures
            final(self).wf(),
            final(self).slot_order() == seq![idx] + old(self).slot_order(),
            final(self).entries() == seq![(key@, value@)] + old(self).entries(),
            !old(self).slot_order().contains(idx),
    {
        let mut node = Node::new(key, value);
        node.next = self.head;
        let idx: usize;
        match self.free.pop() {
            Some(i) => {
                idx = i;
                proof {
                    assert(old(self).free@.contains(idx)) by {
                        assert(old(self).free@[old(self).free@.len() - 1] == idx);
                    }
                }
                self.slots[idx] = node;
            },
            None => {
                idx = self.slots.len();
                self.slots.push(node);
            },
        }
        proof {
            assert(!old(self).slot_order().contains(idx));
            assert forall|i: int| 0 <= i < self.order@.len() implies #[trigger] self.prev_ok(i) by {
                assert(old(self).prev_ok(i));
                assert(self.order@[i] != idx);
                assert(self.slots@[self.order@[i] as int] == old(self).slots@[self.order@[i] as int]);
            }
            assert forall|i: int| 0 <= i < self.order@.len() implies #[trigger] self.next_ok(i) by {
                assert(old(self).next_ok(i));
                assert(self.order@[i] != idx);
                assert(self.slots@[self.order@[i] as int] == old(self).slots@[self.order@[i] as int]);
            }
            assert(self.wf());
        }
        self.push_front_node(idx);
        proof {
            assert(self.entries() =~= seq![(key@, value@)] + old(self).entries());
        }
        idx
    }
}

} // verus!


verus! {

impl List {
    /// Detaches the least-recently-used entry — the tail — frees its
    /// slot for reuse, and returns its key. Yields nothing when empty.
    pub fn pop_back(&mut self) -> (r: Option<String>)
        requires
            old(self).wf(),
        ensures
            final(self).wf(),
            old(self).entries().len() == 0 ==> r is None && *final(self) == *old(self),
            old(self).entries().len() > 0 ==> {
                &&& r is Some
                &&& r->0@ == old(self).entries().last().0
                &&& final(self).slot_order() == old(self).slot_order().drop_last()
                &&& final(self).entries() == old(self).entries().drop_last()
            },
    {
        match self.tail {
            None => None,
            Some(t) => {
                let ghost old_order = old(self).slot_order();
                let ghost n = old_order.len() as int;
                proof {
                    assert(t == old_order[n - 1]);
                }
                let key = self.slots[t].key.clone();
                let t_prev = self.slots[t].prev;
                self.tail = t_prev;
                match t_prev {
                    None => {
                        proof {
                            assert(old(self).prev_ok(n - 1));
                            assert(n == 1);
                        }
                        self.head = None;
                    },
                    Some(t2) => {
                        proof {
                            assert(old(self).prev_ok(n - 1));
                            assert(t2 == old_order[n - 2]);
                        }
                        self.slots[t2].next = None;
                    },
                }
                self.len = self.len - 1;
                self.free.push(t);
                self.order = Ghost(self.order@.drop_last());
                proof {
                    let new_order = self.order@;
                    assert(forall|i: int|
                        0 <= i < new_order.len() ==> #[trigger] new_order[i] == old_order[i]);
                    assert(self.free@.no_duplicates());
                    assert forall|i: int| 0 <= i < new_order.len() implies #[trigger] self.prev_ok(
                        i,
                    ) by {
                        assert(old(self).prev_ok(i));
                        if n >= 2 && old_order[i] == old_order[n - 2] {
                            assert(i == n - 2);
                        }
                    }
                    assert forall|i: int| 0 <= i < new_order.len() implies #[trigger] self.next_ok(
                        i,
                    ) by {
                        assert(old(self).next_ok(i));
                        if n >= 2 && old_order[i] == old_order[n - 2] {
                            assert(i == n - 2);
                        }
                    }
                    assert(self.wf());
                    assert(self.entries() =~= old(self).entries().drop_last());
                }
                Some(key)
            },
        }
    }

    /// Relocates the live entry at slot `idx` to the front of the order.
    /// The entry's key, value, and slot index are unchanged; no other
    /// entry changes its relative order.
    pub fn move_front(&mut self, idx: usize)
        requires
            old(self).wf(),
            old(self).slot_order().contains(idx),
        ensures
            final(self).wf(),
            final(self).slot_order() == seq![idx] + old(self).slot_order().remove(
                old(self).slot_order().index_of(idx),
            ),
            final(self).entries() == seq![
                old(self).entries()[old(self).slot_order().index_of(idx)],
            ] + old(self).entries().remove(old(self).slot_order().index_of(idx)),
    {
        let ghost old_order = old(self).slot_order();
        let ghost n = old_order.len() as int;
        let ghost p = old_order.index_of(idx);
        proof {
            assert(old_order[p] == idx);
            assert(idx < self.slots@.len());
        }
        if self.len == 1 || self.slots[idx].prev.is_none() {
            proof {
                assert(old(self).prev_ok(p));
                assert(p == 0);
                assert(self.slot_order() =~= seq![idx] + old_order.remove(0));
                assert(self.entries() =~= seq![old(self).entries()[0]] + old(
                    self,
                ).entries().remove(0));
            }
            return ;
        }
        proof {
            assert(old(self).prev_ok(p));
            assert(p > 0);
        }
        let nxt = self.slots[idx].next;
        let prv = self.slots[idx].prev;
        if nxt.is_none() {
            proof {
                assert(old(self).next_ok(p));
                assert(p == n - 1);
            }
            let t2 = prv.unwrap();
            proof {
                assert(t2 == old_order[n - 2]);
            }
            self.tail = prv;
            self.slots[t2].next = None;
            self.len = self.len - 1;
            self.order = Ghost(self.order@.drop_last());
            proof {
                let new_order = self.order@;
                assert(forall|i: int|
                    0 <= i < new_order.len() ==> #[trigger] new_order[i] == old_order[i]);
                assert forall|i: int| 0 <= i < new_order.len() implies #[trigger] self.prev_ok(
                    i,
                ) by {
                    assert(old(self).prev_ok(i));
                    if old_order[i] == old_order[n - 2] {
                        assert(i == n - 2);
                    }
                }
                assert forall|i: int| 0 <= i < new_order.len() implies #[trigger] self.next_ok(
                    i,
                ) by {
                    assert(old(self).next_ok(i));
                    if old_order[i] == old_order[n - 2] {
                        assert(i == n - 2);
                    }
                }
                assert(new_order =~= old_order.remove(p));
            }
        } else {
            proof {
                assert(old(self).next_ok(p));
                assert(p < n - 1);
            }
            let pr = prv.unwrap();
            let nx = nxt.unwrap();
            proof {
                assert(pr == old_order[p - 1]);
                assert(nx == old_order[p + 1]);
            }
            self.slots[pr].next = nxt;
            self.slots[nx].prev = prv;
            self.len = self.len - 1;
            self.order = Ghost(self.order@.remove(p));
            proof {
                let new_order = self.order@;
                assert(forall|i: int|
                    0 <= i < new_order.len() ==> #[trigger] new_order[i] == (if i < p {
                        old_order[i]
                    } else {
                        old_order[i + 1]
                    }));
                assert(new_order.no_duplicates());
                assert forall|i: int| 0 <= i < new_order.len() implies #[trigger] self.prev_ok(
                    i,
                ) by {
                    if i < p {
                        assert(old(self).prev_ok(i));
                    } else {
                        assert(old(self).prev_ok(i + 1));
                    }
                    if new_order[i] == old_order[p - 1] {
                        assert(i == p - 1);
                    }
                    if new_order[i] == old_order[p + 1] {
                        assert(i == p);
                    }
                }
                assert forall|i: int| 0 <= i < new_order.len() implies #[trigger] self.next_ok(
                    i,
                ) by {
                    if i < p {
                        assert(old(self).next_ok(i));
                    } else {
                        assert(old(self).next_ok(i + 1));
                    }
                    if new_order[i] == old_order[p - 1] {
                        assert(i == p - 1);
                    }
                    if new_order[i] == old_order[p + 1] {
                        assert(i == p);
                    }
                }
            }
        }
        proof {
            assert(self.wf());
        }
        let ghost mid = *self;
        self.slots[idx].next = self.head;
        self.slots[idx].prev = None;
        proof {
            let new_order = self.order@;
            assert(!new_order.contains(idx));
            assert forall|i: int| 0 <= i < new_order.len() implies #[trigger] self.prev_ok(i) by {
                assert(mid.prev_ok(i));
                assert(new_order[i] != idx);
            }
            assert forall|i: int| 0 <= i < new_order.len() implies #[trigger] self.next_ok(i) by {
                assert(mid.next_ok(i));
                assert(new_order[i] != idx);
            }
            assert(self.wf());
        }
        self.push_front_node(idx);
        proof {
            assert(self.slot_order() =~= seq![idx] + old_order.remove(p));
            assert(self.entries() =~= seq![old(self).entries()[p]] + old(self).entries().remove(
                p,
            ));
        }
    }

    /// Replaces the value stored in the live entry at slot `idx`; its key
    /// and its place in the order are unchanged.
    pub fn set_value(&mut self, idx: usize, value: Value)
        requires
            old(self).wf(),
            old(self).slot_order().contains(idx),
        ensures
            final(self).wf(),
            final(self).slot_order() == old(self).slot_order(),
            final(self).entries() == old(self).entries().update(
                old(self).slot_order().index_of(idx),
                (old(self).entries()[old(self).slot_order().index_of(idx)].0, value@),
            ),
    {
        let ghost old_order = old(self).slot_order();
        let ghost p = old_order.index_of(idx);
        proof {
            assert(old_order[p] == idx);
            assert(idx < self.slots@.len());
        }
        self.slots[idx].value = value;
        proof {
            assert forall|i: int| 0 <= i < self.order@.len() implies #[trigger] self.prev_ok(i) by {
                assert(old(self).prev_ok(i));
            }
            assert forall|i: int| 0 <= i < self.order@.len() implies #[trigger] self.next_ok(i) by {
                assert(old(self).next_ok(i));
            }
            assert(self.wf());
            assert forall|i: int|
                0 <= i < self.order@.len() && i != p implies self.order@[i] != idx by {}
            assert(self.entries() =~= old(self).entries().update(
                p,
                (old(self).entries()[p].0, value@),
            ));
        }
    }

    /// The slot order names one distinct slot for each entry.
    pub proof fn lemma_wf_entries(&self)
        requires
            self.wf(),
        ensures
            self.slot_order().len() == self.entries().len(),
            self.slot_order().no_duplicates(),
    {
    }

    /// The value of the most recently used entry: the head of the order.
    pub fn front_value(&self) -> (r: Value)
        requires
            self.wf(),
            self.entries().len() > 0,
        ensures
            r@ == self.entries()[0].1,
    {
        match self.head {
            Some(h) => {
                proof {
                    assert(h == self.slot_order()[0]);
                }
                self.slots[h].value.clone()
            },
            None => {
                proof {
                    assert(false);
                }
                vstd::pervasive::unreached()
            },
        }
    }
}

} // verus!
