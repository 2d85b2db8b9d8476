//! A first-in, first-out list of orders whose nodes live in an arena and are
//! recycled, with an index from order id to node.

use std::collections::HashMap;
use vstd::prelude::*;

use crate::arena_list::{appended, lemma_appended, ArenaList};
use crate::order_book::Order;

verus! {

broadcast use vstd::std_specs::hash::group_hash_axioms;

/// An order together with the slots of its neighbours in the list.
#[derive(Debug, Clone, Copy, PartialEq, Eq)]
pub struct OrderNode {
    pub order: Order,
    pub prev: Option<usize>,
    pub next: Option<usize>,
}

/// `positions` after the entry at position `p` has left the list: the
/// entries behind it move up by one.
pub open spec fn shift_after(positions: Map<u64, int>, p: int) -> Map<u64, int> {
    Map::new(
        |id: u64| positions.dom().contains(id),
        |id: u64|
            if positions[id] > p {
                positions[id] - 1
            } else {
                positions[id]
            },
    )
}

/// Cancelling an order right after inserting it gives back the orders as they
/// were; the id no longer leads to any order, even one inserted earlier
/// under the same id, and every other indexed order keeps its position.
pub proof fn law_cancel_undoes_insert(orders: Seq<Order>, indexed: Map<u64, int>, order: Order)
    requires
        forall|id: u64| #[trigger] indexed.dom().contains(id) ==> 0 <= indexed[id] < orders.len(),
    ensures
        ({
            let p = indexed.insert(order.id, orders.len() as int)[order.id];
            &&& p == orders.len()
            &&& orders.push(order)[p] == order
            &&& orders.push(order).remove(p) == orders
            &&& shift_after(indexed.insert(order.id, orders.len() as int).remove(order.id), p)
                == indexed.remove(order.id)
        }),
{
    let p = orders.len() as int;
    assert(orders.push(order).remove(p) =~= orders);
    assert(shift_after(indexed.insert(order.id, p).remove(order.id), p) =~= indexed.remove(order.id));
}

/// What `pop_head` returns on a list holding `orders`: the oldest order, if
/// any.
pub open spec fn head_order(orders: Seq<Order>) -> Option<Order> {
    if orders.len() == 0 {
        None
    } else {
        Some(orders[0])
    }
}

/// First in, first out over a whole run. A new list holds no order; `n`
/// inserts append their orders in turn (`insert` ensures a `push`), which
/// leaves exactly `arrivals`. Then `n + 1` calls of `pop_head`, each
/// returning `head_order` of what the calls before it left and leaving its
/// `drop_first`: the `k`-th returns `arrivals[k]`, and the last returns
/// `None`.
pub proof fn law_list_pops_in_arrival_order(arrivals: Seq<Order>)
    ensures
        appended(Seq::<Order>::empty(), arrivals) == arrivals,
        arrivals.skip(0) == arrivals,
        forall|k: int|
            0 <= k < arrivals.len() ==> #[trigger] arrivals.skip(k).drop_first() == arrivals.skip(k + 1)
                && head_order(arrivals.skip(k)) == Some(arrivals[k]),
        head_order(arrivals.skip(arrivals.len() as int)) == None::<Order>,
{
    lemma_appended(Seq::<Order>::empty(), arrivals);
    assert(Seq::<Order>::empty() + arrivals =~= arrivals);
    assert(arrivals.skip(0) =~= arrivals);
    assert forall|k: int| 0 <= k < arrivals.len() implies #[trigger] arrivals.skip(k).drop_first()
        == arrivals.skip(k + 1) && head_order(arrivals.skip(k)) == Some(arrivals[k]) by {
        assert(arrivals.skip(k).drop_first() =~= arrivals.skip(k + 1));
        assert(arrivals.skip(k)[0] == arrivals[k]);
    }
}

/// Orders in arrival order, with an index from order id to the node that
/// holds the order most recently inserted under that id.
pub struct OrderNodeLinkedList {
    list: ArenaList<Order>,
    index: HashMap<u64, usize>,
}

impl OrderNodeLinkedList {
    /// The orders in the list, oldest first.
    pub closed spec fn orders(&self) -> Seq<Order> {
        self.list.values()
    }

    /// The slots that hold the orders, oldest first.
    pub closed spec fn slots(&self) -> Seq<usize> {
        self.list.chain()
    }

    /// For each indexed order id, the position in `orders()` of the order
    /// the index finds under it.
    pub closed spec fn indexed(&self) -> Map<u64, int> {
        Map::new(
            |id: u64| self.index@.contains_key(id),
            |id: u64| self.list.chain().index_of(self.index@[id]),
        )
    }

    /// The node in slot `s`.
    pub closed spec fn node_view(&self, s: int) -> OrderNode {
        let n = self.list.node_at(s);
        OrderNode { order: n.value, prev: n.prev, next: n.next }
    }

    /// The recycled slots, the most recently released last.
    pub closed spec fn free_slots(&self) -> Seq<usize> {
        self.list.free_slots()
    }

    /// How many nodes hold orders.
    pub closed spec fn arena_count(&self) -> nat {
        (self.list.slot_count() - self.list.free_slots().len()) as nat
    }

    /// How many nodes wait to be reused.
    pub closed spec fn freelist_count(&self) -> nat {
        self.list.free_slots().len()
    }

    /// How many nodes have been allocated.
    pub closed spec fn node_count(&self) -> nat {
        self.list.slot_count()
    }

    /// The list is consistent and each indexed id leads to a node in the list
    /// that holds an order with that id.
    pub closed spec fn wf(&self) -> bool {
        &&& self.list.wf()
        &&& forall|id: u64|
            #[trigger] self.index@.contains_key(id) ==> self.list.chain().contains(self.index@[id])
                && self.list.node_at(self.index@[id] as int).value.id == id
    }

    /// Every indexed position holds an order with the id it is indexed by,
    /// and the list keeps one node for each order.
    pub proof fn lemma_wf_facts(&self)
        requires
            self.wf(),
        ensures
            forall|id: u64|
                #[trigger] self.indexed().dom().contains(id) ==> 0 <= self.indexed()[id] < self.orders().len()
                    && self.orders()[self.indexed()[id]].id == id,
            self.slots().len() == self.orders().len(),
            self.slots().no_duplicates(),
            self.arena_count() == self.orders().len(),
            self.arena_count() + self.freelist_count() == self.node_count(),
            forall|i: int| 0 <= i < self.slots().len() ==> #[trigger] self.slots()[i] < self.node_count(),
    {
        self.list.lemma_wf_facts();
        assert forall|id: u64| #[trigger] self.indexed().dom().contains(id) implies 0 <= self.indexed()[id]
            < self.orders().len() && self.orders()[self.indexed()[id]].id == id by {
            let c = self.list.chain();
            let k = c.index_of(self.index@[id]);
            assert(c[k] == self.index@[id]);
        }
    }

    /// An empty list.
    pub fn new() -> (l: Self)
        ensures
            l.wf(),
            l.orders() == Seq::<Order>::empty(),
            l.indexed() == Map::<u64, int>::empty(),
            l.node_count() == 0,
            l.freelist_count() == 0,
    {
        let l = Self { list: ArenaList::new(), index: HashMap::new() };
        proof {
            assert(l.orders() =~= Seq::<Order>::empty());
            assert(l.indexed() =~= Map::<u64, int>::empty());
        }
        l
    }

    /// Inserts `order` at the tail and indexes it under its id, in place of
    /// any order indexed under that id before. A node that an earlier removal
    /// recycled is reused before a new one is allocated.
    pub fn insert(&mut self, order: Order)
        requires
            old(self).wf(),
        ensures
            final(self).wf(),
            final(self).orders() == old(self).orders().push(order),
            final(self).indexed() == old(self).indexed().insert(order.id, old(self).orders().len() as int),
            final(self).arena_count() == old(self).arena_count() + 1,
            final(self).slots() == old(self).slots().push(
                if old(self).free_slots().len() > 0 {
                    old(self).free_slots().last()
                } else {
                    old(self).node_count() as usize
                },
            ),
            final(self).free_slots() == (if old(self).free_slots().len() > 0 {
                old(self).free_slots().drop_last()
            } else {
                old(self).free_slots()
            }),
            old(self).freelist_count() > 0 ==> {
                &&& final(self).freelist_count() == old(self).freelist_count() - 1
                &&& final(self).node_count() == old(self).node_count()
            },
            old(self).freelist_count() == 0 ==> {
                &&& final(self).freelist_count() == 0
                &&& final(self).node_count() == old(self).node_count() + 1
            },
    {
        let ghost l0 = self.list;
        proof {
            l0.lemma_wf_facts();
        }
        let order_id = order.id;
        let slot = self.list.push_back(order);
        self.index.insert(order_id, slot);
        proof {
            self.list.lemma_wf_facts();
            let c0 = l0.chain();
            let c = self.list.chain();
            assert(c[c0.len() as int] == slot);
            assert forall|id: u64| #[trigger] self.index@.contains_key(id) implies self.list.chain().contains(
                self.index@[id],
            ) && self.list.node_at(self.index@[id] as int).value.id == id by {
                if id != order_id {
                    let s = old(self).index@[id];
                    assert(c0.contains(s));
                    let k = c0.index_of(s);
                    assert(c[k] == s);
                    assert(s < l0.slot_count());
                    assert(s != slot);
                }
            }
            assert forall|id: u64| #[trigger] self.indexed().dom().contains(id) implies self.indexed()[id]
                == old(self).indexed().insert(order_id, c0.len() as int)[id] by {
                let s = self.index@[id];
                let k = c.index_of(s);
                assert(c[k] == s);
                if id == order_id {
                    assert(s == slot);
                    assert(c[c0.len() as int] == s);
                } else {
                    let k0 = c0.index_of(s);
                    assert(c0[k0] == s);
                    assert(c[k0] == s);
                }
            }
            assert(self.indexed() =~= old(self).indexed().insert(order_id, c0.len() as int));
        }
    }

    /// Puts the node in `target` on the free list if it is an allocated node
    /// that is not free already, and returns the order it holds; returns
    /// `None` otherwise.
    fn remove_from_arena(&mut self, target: usize) -> (r: Option<Order>)
        requires
            old(self).list.links_ok(),
            !old(self).list.chain().contains(target),
        ensures
            final(self).list.links_ok(),
            r == (if target < old(self).list.slot_count() && !old(self).list.free_slots().contains(target) {
                Some(old(self).list.node_at(target as int).value)
            } else {
                None
            }),
            old(self).list.detached(target) ==> r.is_some() && final(self).list.wf(),
            final(self).list.chain() == old(self).list.chain(),
            final(self).list.values() == old(self).list.values(),
            final(self).list.slot_count() == old(self).list.slot_count(),
            r.is_some() ==> final(self).list.free_slots() == old(self).list.free_slots().push(target),
            r.is_none() ==> final(self).list.free_slots() == old(self).list.free_slots(),
            forall|s: int| #[trigger] final(self).list.node_at(s) == old(self).list.node_at(s),
            final(self).index@ == old(self).index@,
    {
        proof {
            if old(self).list.detached(target) {
                old(self).list.lemma_detached_facts(target);
            }
        }
        if target >= self.list.slot_len() {
            return None;
        }
        let order = self.list.node(target).value;
        if self.list.release(target) {
            proof {
                assert(self.list.values() =~= old(self).list.values());
            }
            Some(order)
        } else {
            proof {
                assert(self.list.values() =~= old(self).list.values());
            }
            None
        }
    }

    /// Takes the node in `slot` out of the list, recycles it and returns its
    /// order; the index is left as the caller made it.
    fn unlink_and_recycle(&mut self, slot: usize) -> (r: Option<Order>)
        requires
            old(self).list.wf(),
            old(self).list.chain().contains(slot),
        ensures
            r == Some(old(self).list.node_at(slot as int).value),
            final(self).list.wf(),
            final(self).list.chain() == old(self).list.chain().remove(old(self).list.chain().index_of(slot)),
            final(self).list.values() == old(self).list.values().remove(old(self).list.chain().index_of(slot)),
            final(self).list.slot_count() == old(self).list.slot_count(),
            final(self).list.free_slots() == old(self).list.free_slots().push(slot),
            forall|s: int|
                0 <= s < old(self).list.slot_count() ==> (#[trigger] final(self).list.node_at(s)).value
                    == old(self).list.node_at(s).value,
            final(self).index@ == old(self).index@,
    {
        self.list.unlink(slot);
        proof {
            self.list.lemma_detached_facts(slot);
        }
        self.remove_from_arena(slot)
    }

    /// Cancels the order indexed under `order_id` and returns it; returns
    /// `None` and leaves the list unchanged when no order is indexed under
    /// that id.
    pub fn cancel(&mut self, order_id: u64) -> (r: Option<Order>)
        requires
            old(self).wf(),
        ensures
            final(self).wf(),
            !old(self).indexed().dom().contains(order_id) ==> {
                &&& r.is_none()
                &&& final(self).orders() == old(self).orders()
                &&& final(self).indexed() == old(self).indexed()
                &&& final(self).node_count() == old(self).node_count()
                &&& final(self).freelist_count() == old(self).freelist_count()
                &&& final(self).free_slots() == old(self).free_slots()
                &&& final(self).slots() == old(self).slots()
            },
            old(self).indexed().dom().contains(order_id) ==> {
                let p = old(self).indexed()[order_id];
                &&& r == Some(old(self).orders()[p])
                &&& final(self).orders() == old(self).orders().remove(p)
                &&& final(self).indexed() == shift_after(old(self).indexed().remove(order_id), p)
                &&& final(self).slots() == old(self).slots().remove(p)
                &&& final(self).free_slots() == old(self).free_slots().push(old(self).slots()[p])
                &&& final(self).node_count() == old(self).node_count()
                &&& final(self).freelist_count() == old(self).freelist_count() + 1
            },
    {
        proof {
            self.lemma_wf_facts();
            self.list.lemma_wf_facts();
        }
        let slot = match self.index.remove(&order_id) {
            Some(s) => s,
            None => {
                proof {
                    assert(self.indexed() =~= old(self).indexed());
                }
                return None;
            },
        };
        let ghost l0 = self.list;
        let ghost c0 = l0.chain();
        let ghost p = c0.index_of(slot);
        proof {
            assert(c0[p] == slot);
        }
        let r = self.unlink_and_recycle(slot);
        proof {
            let c = self.list.chain();
            assert forall|id: u64| #[trigger] self.index@.contains_key(id) implies self.list.chain().contains(
                self.index@[id],
            ) && self.list.node_at(self.index@[id] as int).value.id == id by {
                let s = old(self).index@[id];
                let j = c0.index_of(s);
                assert(c0[j] == s);
                assert(s != slot);
                assert(j != p);
                assert(s < l0.slot_count());
                if j < p {
                    assert(c[j] == s);
                } else {
                    assert(c[j - 1] == s);
                }
            }
            assert forall|id: u64| #[trigger] self.indexed().dom().contains(id) implies self.indexed()[id]
                == shift_after(old(self).indexed().remove(order_id), p)[id] by {
                let s = self.index@[id];
                let j = c0.index_of(s);
                assert(c0[j] == s);
                assert(s != slot);
                assert(j != p);
                let k = c.index_of(s);
                assert(c[k] == s);
                if j < p {
                    assert(c[j] == s);
                } else {
                    assert(c[j - 1] == s);
                }
            }
            assert(self.indexed() =~= shift_after(old(self).indexed().remove(order_id), p));
        }
        r
    }

    /// Removes and returns the order at the head of the list (used for
    /// matching), and drops its id from the index; returns `None` when the
    /// list is empty.
    pub fn pop_head(&mut self) -> (r: Option<Order>)
        requires
            old(self).wf(),
        ensures
            final(self).wf(),
            r == head_order(old(self).orders()),
            old(self).orders().len() == 0 ==> {
                &&& r.is_none()
                &&& final(self).orders() == old(self).orders()
                &&& final(self).indexed() == old(self).indexed()
                &&& final(self).node_count() == old(self).node_count()
                &&& final(self).freelist_count() == old(self).freelist_count()
                &&& final(self).free_slots() == old(self).free_slots()
                &&& final(self).slots() == old(self).slots()
            },
            old(self).orders().len() > 0 ==> {
                &&& r == Some(old(self).orders()[0])
                &&& final(self).orders() == old(self).orders().drop_first()
                &&& final(self).indexed() == shift_after(old(self).indexed().remove(old(self).orders()[0].id), 0)
                &&& final(self).slots() == old(self).slots().drop_first()
                &&& final(self).free_slots() == old(self).free_slots().push(old(self).slots()[0])
                &&& final(self).node_count() == old(self).node_count()
                &&& final(self).freelist_count() == old(self).freelist_count() + 1
            },
    {
        proof {
            self.lemma_wf_facts();
            self.list.lemma_wf_facts();
        }
        let head = match self.list.head() {
            Some(h) => h,
            None => {
                return None;
            },
        };
        let head_order = self.list.node(head).value;
        let ghost l0 = self.list;
        let ghost c0 = l0.chain();
        proof {
            assert(c0[0] == head);
            assert(c0.index_of(head) == 0) by {
                let k = c0.index_of(head);
                assert(c0[k] == c0[0]);
            }
            assert(self.orders()[0] == head_order);
        }
        let r = self.unlink_and_recycle(head);
        self.index.remove(&head_order.id);
        proof {
            let c = self.list.chain();
            assert(old(self).orders().remove(0) =~= old(self).orders().drop_first());
            assert forall|id: u64| #[trigger] self.index@.contains_key(id) implies self.list.chain().contains(
                self.index@[id],
            ) && self.list.node_at(self.index@[id] as int).value.id == id by {
                let s = old(self).index@[id];
                let j = c0.index_of(s);
                assert(c0[j] == s);
                assert(s != head);
                assert(j != 0);
                assert(s < l0.slot_count());
                assert(c[j - 1] == s);
            }
            assert forall|id: u64| #[trigger] self.indexed().dom().contains(id) implies self.indexed()[id]
                == shift_after(old(self).indexed().remove(head_order.id), 0)[id] by {
                let s = self.index@[id];
                let j = c0.index_of(s);
                assert(c0[j] == s);
                assert(s != head);
                assert(j != 0);
                let k = c.index_of(s);
                assert(c[k] == s);
                assert(c[j - 1] == s);
            }
            assert(self.indexed() =~= shift_after(old(self).indexed().remove(head_order.id), 0));
        }
        r
    }
}


impl OrderNodeLinkedList {
    /// How many nodes hold orders.
    pub fn arena_len(&self) -> (n: usize)
        requires
            self.wf(),
        ensures
            n == self.arena_count(),
            n == self.orders().len(),
    {
        proof {
            self.lemma_wf_facts();
        }
        self.list.slot_len() - self.list.free_len()
    }

    /// How many recycled nodes wait to be reused.
    pub fn freelist_len(&self) -> (n: usize)
        ensures
            n == self.freelist_count(),
    {
        self.list.free_len()
    }

    /// The slot of the oldest order, if any.
    pub fn head(&self) -> (h: Option<usize>)
        requires
            self.wf(),
        ensures
            h == (if self.slots().len() == 0 {
                None
            } else {
                Some(self.slots()[0])
            }),
    {
        self.list.head()
    }

    /// The slot of the newest order, if any.
    pub fn tail(&self) -> (t: Option<usize>)
        requires
            self.wf(),
        ensures
            t == (if self.slots().len() == 0 {
                None
            } else {
                Some(self.slots().last())
            }),
    {
        self.list.tail()
    }

    /// The slot of the order indexed under `order_id`, if any.
    pub fn slot_of(&self, order_id: u64) -> (s: Option<usize>)
        requires
            self.wf(),
        ensures
            s == (if self.indexed().dom().contains(order_id) {
                Some(self.slots()[self.indexed()[order_id]])
            } else {
                None
            }),
    {
        proof {
            self.list.lemma_wf_facts();
        }
        match self.index.get(&order_id) {
            Some(s) => {
                proof {
                    let c = self.list.chain();
                    let k = c.index_of(*s);
                    assert(c[k] == *s);
                }
                Some(*s)
            },
            None => None,
        }
    }

    /// The node in `slot`, if the list has allocated that slot.
    pub fn node(&self, slot: usize) -> (n: Option<OrderNode>)
        ensures
            n == (if slot < self.node_count() {
                Some(self.node_view(slot as int))
            } else {
                None
            }),
    {
        if slot < self.list.slot_len() {
            let n = self.list.node(slot);
            Some(OrderNode { order: n.value, prev: n.prev, next: n.next })
        } else {
            None
        }
    }

    /// The node of the `i`-th order holds that order and links to the nodes
    /// of the orders next to it.
    pub proof fn lemma_nodes_link_neighbours(&self, i: int)
        requires
            self.wf(),
            0 <= i < self.orders().len(),
        ensures
            self.node_view(self.slots()[i] as int) == (OrderNode {
                order: self.orders()[i],
                prev: crate::arena_list::prev_of(self.slots(), i),
                next: crate::arena_list::next_of(self.slots(), i),
            }),
    {
        self.list.lemma_wf_facts();
    }
}

} // verus!
