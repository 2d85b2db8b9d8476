//! The first-in, first-out queue of orders resting at one price.

use std::collections::HashMap;
use vstd::prelude::*;

use crate::arena_list::{appended, lemma_appended, next_of, prev_of, ArenaList};
use crate::domain::commands::{PartialFillRequest, UpdateQtyRequest};
use crate::domain::errors::OrderBookError;
use crate::domain::responses::{
    CommandResult, FillInfo, FilledInfo, PartialFillInfo, QtyUpdatedInfo, RemoveInfo, TimedResult,
};
use crate::order_book::order::Side;
use crate::order_book::price_level::requests::EnqueueOrder;
use crate::order_book::price_level::resting_order_node::{OrderNode, RestingOrder};
use crate::time::TimeSource;

verus! {

broadcast use vstd::std_specs::hash::group_hash_axioms;

/// Some order in `orders` has id `id`.
pub open spec fn has_order(orders: Seq<RestingOrder>, id: u64) -> bool {
    exists|i: int| 0 <= i < orders.len() && orders[i].id == id
}

/// The position in `orders` of the order with id `id`.
pub open spec fn position_of(orders: Seq<RestingOrder>, id: u64) -> int {
    choose|i: int| 0 <= i < orders.len() && orders[i].id == id
}

/// No two orders in `orders` share an id.
pub open spec fn distinct_ids(orders: Seq<RestingOrder>) -> bool {
    forall|i: int, j: int|
        0 <= i < orders.len() && 0 <= j < orders.len() && i != j ==> orders[i].id != orders[j].id
}

/// Removing an order right after inserting it gives back the queue as it
/// was: the new order is found at the tail, and taking it out leaves the
/// orders before it untouched.
pub proof fn law_remove_undoes_insert(orders: Seq<RestingOrder>, order: RestingOrder)
    requires
        !has_order(orders, order.id),
    ensures
        has_order(orders.push(order), order.id),
        position_of(orders.push(order), order.id) == orders.len(),
        orders.push(order).remove(orders.len() as int) == orders,
{
    let s = orders.push(order);
    assert(s[orders.len() as int].id == order.id);
    let p = position_of(s, order.id);
    if p < orders.len() {
        assert(orders[p].id == order.id);
    }
    assert(s.remove(orders.len() as int) =~= orders);
}

/// Price-time priority: an arriving order joins the back of the queue, so
/// the order filled next is the one that was first before it arrived, and
/// the others keep their turn ahead of it.
pub proof fn law_arrival_keeps_priority(orders: Seq<RestingOrder>, order: RestingOrder)
    requires
        orders.len() > 0,
    ensures
        orders.push(order)[0] == orders[0],
        orders.push(order).drop_first() == orders.drop_first().push(order),
{
    assert(orders.push(order).drop_first() =~= orders.drop_first().push(order));
}

/// Changing an order's quantity keeps every order's id and arrival time in
/// place, so no order gains or loses priority.
pub proof fn law_quantity_change_keeps_priority(orders: Seq<RestingOrder>, p: int, new_qty: u64)
    requires
        0 <= p < orders.len(),
    ensures
        ({
            let updated = orders.update(
                p,
                RestingOrder { id: orders[p].id, qty: new_qty, timestamp_ns: orders[p].timestamp_ns },
            );
            &&& updated.len() == orders.len()
            &&& forall|i: int|
                0 <= i < orders.len() ==> #[trigger] updated[i].id == orders[i].id && updated[i].timestamp_ns
                    == orders[i].timestamp_ns
        }),
{
}

/// Node recycling: the insertion that follows a removal takes the very node
/// the removal released, and leaves the free list as it was before the
/// removal, so no node is leaked.
pub proof fn law_insert_reuses_released_node(free_slots: Seq<usize>, released: usize)
    ensures
        free_slots.push(released).len() > 0,
        free_slots.push(released).last() == released,
        free_slots.push(released).drop_last() == free_slots,
{
    assert(free_slots.push(released).drop_last() =~= free_slots);
}

/// What `pop_head` answers on a level holding `orders`: a full fill of the
/// oldest order, or `EmptyPriceLevel`.
pub open spec fn head_fill(orders: Seq<RestingOrder>) -> CommandResult {
    if orders.len() == 0 {
        CommandResult::Rejected(OrderBookError::EmptyPriceLevel)
    } else {
        CommandResult::Filled(FillInfo::Full(FilledInfo { order_id: orders[0].id, filled_qty: orders[0].qty }))
    }
}

/// Time priority over a whole run. A new level holds no order; `n` accepted
/// inserts append their orders in turn (`insert` ensures a `push`), which
/// leaves exactly `arrivals`. Then `n + 1` calls of `pop_head`, each
/// answering `head_fill` of what the calls before it left and leaving its
/// `drop_first`: the `k`-th fills `arrivals[k]` in full, and the last one
/// finds the level empty.
pub proof fn law_level_fills_in_arrival_order(arrivals: Seq<RestingOrder>)
    ensures
        appended(Seq::<RestingOrder>::empty(), arrivals) == arrivals,
        arrivals.skip(0) == arrivals,
        forall|k: int|
            0 <= k < arrivals.len() ==> #[trigger] arrivals.skip(k).drop_first() == arrivals.skip(k + 1)
                && head_fill(arrivals.skip(k)) == CommandResult::Filled(
                FillInfo::Full(FilledInfo { order_id: arrivals[k].id, filled_qty: arrivals[k].qty }),
            ),
        head_fill(arrivals.skip(arrivals.len() as int)) == CommandResult::Rejected(
            OrderBookError::EmptyPriceLevel,
        ),
{
    lemma_appended(Seq::<RestingOrder>::empty(), arrivals);
    assert(Seq::<RestingOrder>::empty() + arrivals =~= arrivals);
    assert(arrivals.skip(0) =~= arrivals);
    assert forall|k: int| 0 <= k < arrivals.len() implies #[trigger] arrivals.skip(k).drop_first()
        == arrivals.skip(k + 1) && head_fill(arrivals.skip(k)) == CommandResult::Filled(
        FillInfo::Full(FilledInfo { order_id: arrivals[k].id, filled_qty: arrivals[k].qty }),
    ) by {
        assert(arrivals.skip(k).drop_first() =~= arrivals.skip(k + 1));
        assert(arrivals.skip(k)[0] == arrivals[k]);
    }
}

/// A level's price never changes. In a run of states of one level, where
/// each state comes from the one before by a call of a `PriceLevelQueue`
/// method (and every method's contract keeps `spec_price`), every state has
/// the price of the first; `price()` returns it.
pub proof fn law_price_is_fixed<C: TimeSource>(run: Seq<PriceLevelQueue<C>>)
    requires
        run.len() > 0,
        forall|i: int| 1 <= i < run.len() ==> #[trigger] run[i].spec_price() == run[i - 1].spec_price(),
    ensures
        forall|i: int| 0 <= i < run.len() ==> #[trigger] run[i].spec_price() == run[0].spec_price(),
    decreases run.len(),
{
    if run.len() > 1 {
        let shorter = run.drop_last();
        assert forall|i: int| 1 <= i < shorter.len() implies #[trigger] shorter[i].spec_price()
            == shorter[i - 1].spec_price() by {
            assert(run[i].spec_price() == run[i - 1].spec_price());
        }
        law_price_is_fixed(shorter);
        assert forall|i: int| 0 <= i < run.len() implies #[trigger] run[i].spec_price() == run[0].spec_price() by {
            if i < run.len() - 1 {
                assert(shorter[i].spec_price() == shorter[0].spec_price());
            } else {
                assert(run[i].spec_price() == run[i - 1].spec_price());
                assert(shorter[i - 1].spec_price() == shorter[0].spec_price());
            }
        }
    }
}

/// The queue of orders resting at one price on one side of the book, in
/// arrival order. Orders are found by id through an index; the nodes of
/// orders that leave the queue are recycled for later arrivals.
pub struct PriceLevelQueue<C: TimeSource> {
    price: u64,
    side: Side,
    clock: C,
    queue: ArenaList<RestingOrder>,
    index: HashMap<u64, usize>,
}

impl<C: TimeSource> PriceLevelQueue<C> {
    /// The resting orders, oldest first.
    pub closed spec fn orders(&self) -> Seq<RestingOrder> {
        self.queue.values()
    }

    /// The slots that hold the resting orders, oldest first.
    pub closed spec fn slots(&self) -> Seq<usize> {
        self.queue.chain()
    }

    /// The node in slot `s`: its order and the slots of its neighbours.
    pub closed spec fn node_view(&self, s: int) -> OrderNode {
        let n = self.queue.node_at(s);
        OrderNode { ro: n.value, prev: n.prev, next: n.next }
    }

    /// The recycled slots, the most recently released last.
    pub closed spec fn free_slots(&self) -> Seq<usize> {
        self.queue.free_slots()
    }

    /// How many nodes hold resting orders.
    pub closed spec fn arena_count(&self) -> nat {
        (self.queue.slot_count() - self.queue.free_slots().len()) as nat
    }

    /// How many nodes wait to be reused.
    pub closed spec fn freelist_count(&self) -> nat {
        self.queue.free_slots().len()
    }

    /// How many nodes have been allocated.
    pub closed spec fn node_count(&self) -> nat {
        self.queue.slot_count()
    }

    pub closed spec fn spec_price(&self) -> u64 {
        self.price
    }

    pub closed spec fn spec_side(&self) -> Side {
        self.side
    }

    /// The clock that stamps this level's results.
    pub closed spec fn spec_clock(&self) -> C {
        self.clock
    }

    /// The queue is consistent and the index maps each resting order's id to
    /// the slot that holds it, and nothing else.
    pub closed spec fn wf(&self) -> bool {
        let c = self.queue.chain();
        let v = self.queue.values();
        &&& self.queue.wf()
        &&& forall|i: int|
            0 <= i < c.len() ==> self.index@.contains_key(#[trigger] v[i].id) && self.index@[v[i].id]
                == c[i]
        &&& forall|id: u64|
            #[trigger] self.index@.contains_key(id) ==> c.contains(self.index@[id])
                && self.queue.node_at(self.index@[id] as int).value.id == id
    }

    /// A consistent queue holds each order id at most once, and keeps one
    /// node for each resting order.
    pub proof fn lemma_wf_facts(&self)
        requires
            self.wf(),
        ensures
            distinct_ids(self.orders()),
            self.slots().len() == self.orders().len(),
            self.slots().no_duplicates(),
            self.arena_count() == self.orders().len(),
            self.arena_count() + self.freelist_count() == self.node_count(),
            forall|i: int| 0 <= i < self.slots().len() ==> #[trigger] self.slots()[i] < self.node_count(),
            forall|id: u64|
                has_order(self.orders(), id) ==> {
                    let p = position_of(self.orders(), id);
                    0 <= p < self.orders().len() && self.orders()[p].id == id
                },
    {
        self.queue.lemma_wf_facts();
        let c = self.queue.chain();
        let v = self.queue.values();
        assert forall|i: int, j: int| 0 <= i < v.len() && 0 <= j < v.len() && i != j implies v[i].id
            != v[j].id by {
            if v[i].id == v[j].id {
                assert(self.index@[v[i].id] == c[i]);
                assert(self.index@[v[j].id] == c[j]);
            }
        }
    }

    /// The links of every resting order's node name its neighbours in the
    /// queue: the node of the `i`-th order points back to the node of the
    /// order before it and forward to the node of the order after it.
    pub proof fn lemma_nodes_link_neighbours(&self, i: int)
        requires
            self.wf(),
            0 <= i < self.orders().len(),
        ensures
            self.node_view(self.slots()[i] as int) == (OrderNode {
                ro: self.orders()[i],
                prev: prev_of(self.slots(), i),
                next: next_of(self.slots(), i),
            }),
    {
        self.queue.lemma_wf_facts();
    }

    /// The node of an order's successor points back to the order's node, and
    /// the node of its predecessor points forward to it.
    pub proof fn lemma_links_mirror(&self, a: usize, b: usize)
        requires
            self.wf(),
            self.slots().contains(a),
            self.slots().contains(b),
        ensures
            self.node_view(a as int).next == Some(b) <==> self.node_view(b as int).prev == Some(a),
    {
        self.queue.lemma_wf_facts();
        let c = self.queue.chain();
        let i = c.index_of(a);
        let j = c.index_of(b);
        assert(c[i] == a && c[j] == b);
        if self.node_view(a as int).next == Some(b) {
            assert(next_of(c, i) == Some(b));
            assert(c[i + 1] == c[j]);
            assert(j == i + 1);
        }
        if self.node_view(b as int).prev == Some(a) {
            assert(prev_of(c, j) == Some(a));
            assert(c[j - 1] == c[i]);
            assert(i == j - 1);
        }
    }

    /// An empty queue for orders at `price` on `side`, stamped by `clock`.
    pub fn new(price: u64, side: Side, clock: C) -> (q: Self)
        ensures
            q.wf(),
            q.orders() == Seq::<RestingOrder>::empty(),
            q.spec_price() == price,
            q.spec_side() == side,
            q.spec_clock() == clock,
            q.node_count() == 0,
            q.freelist_count() == 0,
    {
        let q = Self { price, side, clock, queue: ArenaList::new(), index: HashMap::new() };
        proof {
            assert(q.orders() =~= Seq::<RestingOrder>::empty());
        }
        q
    }

    /// The price of this level.
    pub fn price(&self) -> (p: u64)
        ensures
            p == self.spec_price(),
    {
        self.price
    }
}


impl<C: TimeSource> PriceLevelQueue<C> {
    /// Inserts a new order at the tail. An order whose id already rests here
    /// is refused with `DuplicateOrderId`. A node that an earlier removal
    /// recycled is reused before a new one is allocated.
    pub fn insert(&mut self, new_order_request: EnqueueOrder) -> (r: TimedResult)
        requires
            old(self).wf(),
        ensures
            final(self).wf(),
            final(self).spec_price() == old(self).spec_price(),
            final(self).spec_side() == old(self).spec_side(),
            final(self).spec_clock() == old(self).spec_clock(),
            call_ensures(C::now, (&old(self).spec_clock(),), r.timestamp_ns),
            has_order(old(self).orders(), new_order_request.order_id) ==> {
                &&& r.result == CommandResult::Rejected(OrderBookError::DuplicateOrderId)
                &&& final(self).orders() == old(self).orders()
                &&& final(self).slots() == old(self).slots()
                &&& final(self).node_count() == old(self).node_count()
                &&& final(self).freelist_count() == old(self).freelist_count()
                &&& final(self).free_slots() == old(self).free_slots()
            },
            !has_order(old(self).orders(), new_order_request.order_id) ==> {
                &&& r.result == CommandResult::Acknowledged
                &&& final(self).orders() == old(self).orders().push(
                    RestingOrder {
                        id: new_order_request.order_id,
                        qty: new_order_request.qty,
                        timestamp_ns: r.timestamp_ns,
                    },
                )
                &&& final(self).slots().drop_last() == old(self).slots()
                &&& final(self).slots().last() == (if old(self).free_slots().len() > 0 {
                    old(self).free_slots().last()
                } else {
                    old(self).node_count() as usize
                })
                &&& final(self).free_slots() == (if old(self).free_slots().len() > 0 {
                    old(self).free_slots().drop_last()
                } else {
                    old(self).free_slots()
                })
                &&& final(self).arena_count() == old(self).arena_count() + 1
                &&& (old(self).freelist_count() > 0 ==> {
                    &&& final(self).freelist_count() == old(self).freelist_count() - 1
                    &&& final(self).node_count() == old(self).node_count()
                })
                &&& (old(self).freelist_count() == 0 ==> {
                    &&& final(self).freelist_count() == 0
                    &&& final(self).node_count() == old(self).node_count() + 1
                })
            },
    {
        proof {
            self.lemma_wf_facts();
        }
        let order_id = new_order_request.order_id;
        if self.index.contains_key(&order_id) {
            proof {
                let v = self.queue.values();
                let c = self.queue.chain();
                let k = c.index_of(self.index@[order_id]);
                assert(v[k].id == order_id);
            }
            return TimedResult {
                timestamp_ns: self.clock.now(),
                result: CommandResult::Rejected(OrderBookError::DuplicateOrderId),
            };
        }
        let now = self.clock.now();
        let ro = RestingOrder { id: order_id, qty: new_order_request.qty, timestamp_ns: now };
        proof {
            assert(!has_order(self.orders(), order_id)) by {
                if has_order(self.orders(), order_id) {
                    let i = choose|i: int| 0 <= i < self.orders().len() && self.orders()[i].id == order_id;
                    assert(self.index@.contains_key(self.queue.values()[i].id));
                }
            }
        }
        let ghost old_queue = self.queue;
        let slot = self.queue.push_back(ro);
        self.index.insert(order_id, slot);
        proof {
            old_queue.lemma_wf_facts();
            self.queue.lemma_wf_facts();
            let c0 = old_queue.chain();
            let v0 = old_queue.values();
            let c = self.queue.chain();
            let v = self.queue.values();
            assert forall|i: int|
                0 <= i < c.len() implies self.index@.contains_key(#[trigger] v[i].id) && self.index@[v[i].id]
                == c[i] by {
                if i < c0.len() {
                    assert(v[i] == v0[i]);
                    assert(old(self).index@.contains_key(v0[i].id));
                    assert(v0[i].id != order_id);
                }
            }
            assert forall|id: u64| #[trigger] self.index@.contains_key(id) implies c.contains(self.index@[id])
                && self.queue.node_at(self.index@[id] as int).value.id == id by {
                if id == order_id {
                    assert(c[c0.len() as int] == slot);
                } else {
                    let s = old(self).index@[id];
                    assert(c0.contains(s));
                    let k = c0.index_of(s);
                    assert(c[k] == s);
                    assert(s < old_queue.slot_count());
                    assert(s != slot);
                }
            }
            assert(c.drop_last() =~= c0);
        }
        TimedResult { timestamp_ns: now, result: CommandResult::Acknowledged }
    }

    /// Puts the node in `target` on the free list if it is an allocated node
    /// that is not free already: `Acknowledged` then, `OrderNotInArena`
    /// otherwise.
    fn remove_from_arena(&mut self, target: usize) -> (r: CommandResult)
        requires
            old(self).queue.links_ok(),
            !old(self).queue.chain().contains(target),
        ensures
            final(self).queue.links_ok(),
            r == (if target < old(self).queue.slot_count() && !old(self).queue.free_slots().contains(target) {
                CommandResult::Acknowledged
            } else {
                CommandResult::Rejected(OrderBookError::OrderNotInArena)
            }),
            old(self).queue.detached(target) ==> r == CommandResult::Acknowledged && final(self).queue.wf(),
            final(self).queue.chain() == old(self).queue.chain(),
            final(self).queue.values() == old(self).queue.values(),
            final(self).queue.slot_count() == old(self).queue.slot_count(),
            r == CommandResult::Acknowledged ==> final(self).queue.free_slots() == old(self).queue.free_slots().push(target),
            r != CommandResult::Acknowledged ==> final(self).queue.free_slots() == old(self).queue.free_slots(),
            forall|s: int| #[trigger] final(self).queue.node_at(s) == old(self).queue.node_at(s),
            final(self).index@ == old(self).index@,
            final(self).clock == old(self).clock,
            final(self).price == old(self).price,
            final(self).side == old(self).side,
    {
        if self.queue.release(target) {
            proof {
                assert(self.queue.values() =~= old(self).queue.values());
            }
            CommandResult::Acknowledged
        } else {
            proof {
                assert(self.queue.values() =~= old(self).queue.values());
            }
            CommandResult::Rejected(OrderBookError::OrderNotInArena)
        }
    }

    /// Takes the node in `slot`, which holds the order with id `id`, out of
    /// the queue and recycles it.
    fn unlink_and_recycle(&mut self, slot: usize, id: u64)
        requires
            old(self).queue.wf(),
            old(self).queue.chain().contains(slot),
            old(self).queue.node_at(slot as int).value.id == id,
            forall|i: int|
                0 <= i < old(self).queue.chain().len() ==> old(self).index@.contains_key(
                    #[trigger] old(self).queue.values()[i].id,
                ) && old(self).index@[old(self).queue.values()[i].id] == old(self).queue.chain()[i],
            forall|k: u64| #[trigger]
                old(self).index@.contains_key(k) ==> old(self).queue.chain().contains(old(self).index@[k])
                    && old(self).queue.node_at(old(self).index@[k] as int).value.id == k,
        ensures
            final(self).index@ == old(self).index@.remove(id),
            final(self).wf(),
            final(self).orders() == old(self).orders().remove(old(self).queue.chain().index_of(slot)),
            final(self).slots() == old(self).slots().remove(old(self).queue.chain().index_of(slot)),
            final(self).node_count() == old(self).node_count(),
            final(self).freelist_count() == old(self).freelist_count() + 1,
            final(self).free_slots() == old(self).free_slots().push(slot),
            final(self).clock == old(self).clock,
            final(self).price == old(self).price,
            final(self).side == old(self).side,
    {
        let ghost q0 = self.queue;
        proof {
            q0.lemma_wf_facts();
        }
        self.index.remove(&id);
        self.queue.unlink(slot);
        let _ = self.remove_from_arena(slot);
        proof {
            let c0 = q0.chain();
            let v0 = q0.values();
            let p = c0.index_of(slot);
            let c = self.queue.chain();
            let v = self.queue.values();
            assert(c0[p] == slot);
            assert forall|i: int|
                0 <= i < c.len() implies self.index@.contains_key(#[trigger] v[i].id) && self.index@[v[i].id]
                == c[i] by {
                let ii = if i < p {
                    i
                } else {
                    i + 1
                };
                assert(v[i] == v0[ii]);
                assert(c[i] == c0[ii]);
                assert(v0[ii].id != id) by {
                    assert(old(self).index@[v0[ii].id] == c0[ii]);
                    assert(old(self).index@[v0[p].id] == c0[p]);
                }
            }
            assert forall|k: u64| #[trigger] self.index@.contains_key(k) implies c.contains(self.index@[k])
                && self.queue.node_at(self.index@[k] as int).value.id == k by {
                let s = old(self).index@[k];
                assert(c0.contains(s));
                let j = c0.index_of(s);
                assert(c0[j] == s);
                assert(j != p);
                assert(s < q0.slot_count());
                if j < p {
                    assert(c[j] == s);
                } else {
                    assert(c[j - 1] == s);
                }
            }
        }
    }

    /// Removes and fills the order at the head of the queue (used for
    /// matching); an empty queue is refused with `EmptyPriceLevel`.
    pub fn pop_head(&mut self) -> (r: CommandResult)
        requires
            old(self).wf(),
        ensures
            final(self).wf(),
            r == head_fill(old(self).orders()),
            final(self).spec_price() == old(self).spec_price(),
            final(self).spec_side() == old(self).spec_side(),
            final(self).spec_clock() == old(self).spec_clock(),
            old(self).orders().len() == 0 ==> {
                &&& r == CommandResult::Rejected(OrderBookError::EmptyPriceLevel)
                &&& final(self).orders() == old(self).orders()
                &&& final(self).node_count() == old(self).node_count()
                &&& final(self).freelist_count() == old(self).freelist_count()
                &&& final(self).free_slots() == old(self).free_slots()
            },
            old(self).orders().len() > 0 ==> {
                &&& r == CommandResult::Filled(
                    FillInfo::Full(
                        FilledInfo {
                            order_id: old(self).orders()[0].id,
                            filled_qty: old(self).orders()[0].qty,
                        },
                    ),
                )
                &&& final(self).orders() == old(self).orders().drop_first()
                &&& final(self).slots() == old(self).slots().drop_first()
                &&& final(self).free_slots() == old(self).free_slots().push(old(self).slots()[0])
                &&& final(self).node_count() == old(self).node_count()
                &&& final(self).freelist_count() == old(self).freelist_count() + 1
            },
    {
        proof {
            self.queue.lemma_wf_facts();
        }
        let head = match self.queue.head() {
            None => {
                return CommandResult::Rejected(OrderBookError::EmptyPriceLevel);
            },
            Some(h) => h,
        };
        let head_node = self.queue.node(head);
        let order_id = head_node.value.id;
        let filled_qty = head_node.value.qty;
        proof {
            let c = self.queue.chain();
            assert(c[0] == head);
            assert(c.contains(head));
            assert(c.index_of(head) == 0) by {
                let k = c.index_of(head);
                assert(c[k] == c[0]);
            }
            assert(self.orders()[0] == head_node.value);
        }
        self.unlink_and_recycle(head, order_id);
        proof {
            assert(old(self).orders().remove(0) =~= old(self).orders().drop_first());
            assert(old(self).slots().remove(0) =~= old(self).slots().drop_first());
        }
        CommandResult::Filled(FillInfo::Full(FilledInfo { order_id, filled_qty }))
    }

    /// Removes the order with id `order_id`, wherever it stands in the queue;
    /// an unknown id is refused with `OrderNotFound`.
    pub fn remove(&mut self, order_id: u64) -> (r: TimedResult)
        requires
            old(self).wf(),
        ensures
            final(self).wf(),
            final(self).spec_price() == old(self).spec_price(),
            final(self).spec_side() == old(self).spec_side(),
            final(self).spec_clock() == old(self).spec_clock(),
            call_ensures(C::now, (&old(self).spec_clock(),), r.timestamp_ns),
            !has_order(old(self).orders(), order_id) ==> {
                &&& r.result == CommandResult::Rejected(OrderBookError::OrderNotFound)
                &&& final(self).orders() == old(self).orders()
                &&& final(self).slots() == old(self).slots()
                &&& final(self).node_count() == old(self).node_count()
                &&& final(self).freelist_count() == old(self).freelist_count()
                &&& final(self).free_slots() == old(self).free_slots()
            },
            has_order(old(self).orders(), order_id) ==> {
                let p = position_of(old(self).orders(), order_id);
                &&& r.result == CommandResult::Removed(
                    RemoveInfo { order_id, canceled_quantity: old(self).orders()[p].qty },
                )
                &&& final(self).orders() == old(self).orders().remove(p)
                &&& final(self).slots() == old(self).slots().remove(p)
                &&& final(self).free_slots() == old(self).free_slots().push(old(self).slots()[p])
                &&& final(self).node_count() == old(self).node_count()
                &&& final(self).freelist_count() == old(self).freelist_count() + 1
            },
    {
        proof {
            self.lemma_wf_facts();
        }
        let slot = match self.index.get(&order_id) {
            None => {
                proof {
                    assert(!has_order(self.orders(), order_id)) by {
                        if has_order(self.orders(), order_id) {
                            let i = choose|i: int|
                                0 <= i < self.orders().len() && self.orders()[i].id == order_id;
                            assert(self.index@.contains_key(self.queue.values()[i].id));
                        }
                    }
                }
                return TimedResult {
                    timestamp_ns: self.clock.now(),
                    result: CommandResult::Rejected(OrderBookError::OrderNotFound),
                };
            },
            Some(s) => *s,
        };
        let node = self.queue.node(slot);
        let canceled_quantity = node.value.qty;
        proof {
            let c = self.queue.chain();
            let v = self.queue.values();
            let k = c.index_of(slot);
            assert(c[k] == slot);
            assert(v[k].id == order_id);
            let p = position_of(v, order_id);
            assert(p == k);
            assert(v[k] == node.value);
        }
        self.unlink_and_recycle(slot, order_id);
        TimedResult {
            timestamp_ns: self.clock.now(),
            result: CommandResult::Removed(RemoveInfo { order_id, canceled_quantity }),
        }
    }

    /// Replaces the `k`-th resting order, held in `slot`, by `updated`, which
    /// keeps its id; the order keeps its place and its node.
    fn replace_order(&mut self, slot: usize, updated: RestingOrder, Ghost(k): Ghost<int>)
        requires
            old(self).wf(),
            0 <= k < old(self).orders().len(),
            old(self).slots()[k] == slot,
            updated.id == old(self).orders()[k].id,
        ensures
            final(self).wf(),
            final(self).orders() == old(self).orders().update(k, updated),
            final(self).slots() == old(self).slots(),
            final(self).free_slots() == old(self).free_slots(),
            final(self).node_count() == old(self).node_count(),
            final(self).clock == old(self).clock,
            final(self).price == old(self).price,
            final(self).side == old(self).side,
    {
        let ghost q0 = self.queue;
        proof {
            q0.lemma_wf_facts();
        }
        self.queue.set_value(slot, updated);
        proof {
            let c = q0.chain();
            let v0 = q0.values();
            let v = self.queue.values();
            assert forall|i: int| 0 <= i < c.len() implies #[trigger] v[i] == v0.update(k, updated)[i] by {
                if i != k {
                    assert(c[i] != c[k]);
                }
            }
            assert(v =~= v0.update(k, updated));
            assert forall|i: int|
                0 <= i < c.len() implies self.index@.contains_key(#[trigger] v[i].id) && self.index@[v[i].id]
                == c[i] by {
                assert(v[i].id == v0[i].id);
            }
            assert forall|id: u64| #[trigger] self.index@.contains_key(id) implies c.contains(self.index@[id])
                && self.queue.node_at(self.index@[id] as int).value.id == id by {
                let s = self.index@[id];
                if s != slot {
                    assert(self.queue.node_at(s as int) == q0.node_at(s as int)) by {
                        let j = c.index_of(s);
                        assert(c[j] < q0.slot_count());
                    }
                }
            }
        }
    }

    /// Sets the quantity of the order with id `req.order_id`, which keeps its
    /// place in the queue; an unknown id is refused with `OrderNotFound`.
    pub fn update_quantity(&mut self, req: UpdateQtyRequest) -> (r: TimedResult)
        requires
            old(self).wf(),
        ensures
            final(self).wf(),
            final(self).spec_price() == old(self).spec_price(),
            final(self).spec_side() == old(self).spec_side(),
            final(self).spec_clock() == old(self).spec_clock(),
            call_ensures(C::now, (&old(self).spec_clock(),), r.timestamp_ns),
            final(self).slots() == old(self).slots(),
            final(self).node_count() == old(self).node_count(),
            final(self).freelist_count() == old(self).freelist_count(),
            final(self).free_slots() == old(self).free_slots(),
            !has_order(old(self).orders(), req.order_id) ==> {
                &&& r.result == CommandResult::Rejected(OrderBookError::OrderNotFound)
                &&& final(self).orders() == old(self).orders()
            },
            has_order(old(self).orders(), req.order_id) ==> {
                let p = position_of(old(self).orders(), req.order_id);
                &&& r.result == CommandResult::QuantityUpdated(
                    QtyUpdatedInfo { order_id: req.order_id, new_qty: req.new_qty },
                )
                &&& final(self).orders() == old(self).orders().update(
                    p,
                    RestingOrder {
                        id: req.order_id,
                        qty: req.new_qty,
                        timestamp_ns: old(self).orders()[p].timestamp_ns,
                    },
                )
            },
    {
        proof {
            self.lemma_wf_facts();
        }
        let slot = match self.index.get(&req.order_id) {
            None => {
                proof {
                    assert(!has_order(self.orders(), req.order_id)) by {
                        if has_order(self.orders(), req.order_id) {
                            let i = choose|i: int|
                                0 <= i < self.orders().len() && self.orders()[i].id == req.order_id;
                            assert(self.index@.contains_key(self.queue.values()[i].id));
                        }
                    }
                }
                return TimedResult {
                    timestamp_ns: self.clock.now(),
                    result: CommandResult::Rejected(OrderBookError::OrderNotFound),
                };
            },
            Some(s) => *s,
        };
        let node = self.queue.node(slot);
        let updated = RestingOrder { id: node.value.id, qty: req.new_qty, timestamp_ns: node.value.timestamp_ns };
        let ghost q0 = self.queue;
        let ghost k = q0.chain().index_of(slot);
        proof {
            let c = q0.chain();
            assert(c[k] == slot);
            assert(q0.values()[k].id == req.order_id);
            assert(position_of(q0.values(), req.order_id) == k);
        }
        self.replace_order(slot, updated, Ghost(k));
        TimedResult {
            timestamp_ns: self.clock.now(),
            result: CommandResult::QuantityUpdated(QtyUpdatedInfo { order_id: req.order_id, new_qty: req.new_qty }),
        }
    }

    /// Fills part of the order at the head of the queue. An empty queue is
    /// refused with `EmptyPriceLevel`, and a fill that would consume the
    /// whole order with `InsufficientQuantity`.
    pub fn apply_partial_fill(&mut self, req: PartialFillRequest) -> (r: TimedResult)
        requires
            old(self).wf(),
        ensures
            final(self).wf(),
            final(self).spec_price() == old(self).spec_price(),
            final(self).spec_side() == old(self).spec_side(),
            final(self).spec_clock() == old(self).spec_clock(),
            call_ensures(C::now, (&old(self).spec_clock(),), r.timestamp_ns),
            final(self).slots() == old(self).slots(),
            final(self).node_count() == old(self).node_count(),
            final(self).freelist_count() == old(self).freelist_count(),
            final(self).free_slots() == old(self).free_slots(),
            old(self).orders().len() == 0 ==> {
                &&& r.result == CommandResult::Rejected(OrderBookError::EmptyPriceLevel)
                &&& final(self).orders() == old(self).orders()
            },
            old(self).orders().len() > 0 && req.qty_to_fill >= old(self).orders()[0].qty ==> {
                &&& r.result == CommandResult::Rejected(OrderBookError::InsufficientQuantity)
                &&& final(self).orders() == old(self).orders()
            },
            old(self).orders().len() > 0 && req.qty_to_fill < old(self).orders()[0].qty ==> {
                let head = old(self).orders()[0];
                &&& r.result == CommandResult::Filled(
                    FillInfo::Partial(
                        PartialFillInfo {
                            order_id: head.id,
                            filled_qty: req.qty_to_fill,
                            remaining_qty: (head.qty - req.qty_to_fill) as u64,
                        },
                    ),
                )
                &&& final(self).orders() == old(self).orders().update(
                    0,
                    RestingOrder {
                        id: head.id,
                        qty: (head.qty - req.qty_to_fill) as u64,
                        timestamp_ns: head.timestamp_ns,
                    },
                )
            },
    {
        proof {
            self.lemma_wf_facts();
        }
        let head = match self.queue.head() {
            None => {
                return TimedResult {
                    timestamp_ns: self.clock.now(),
                    result: CommandResult::Rejected(OrderBookError::EmptyPriceLevel),
                };
            },
            Some(h) => h,
        };
        let node = self.queue.node(head);
        proof {
            assert(self.queue.chain()[0] == head);
            assert(self.orders()[0] == node.value);
        }
        if req.qty_to_fill >= node.value.qty {
            return TimedResult {
                timestamp_ns: self.clock.now(),
                result: CommandResult::Rejected(OrderBookError::InsufficientQuantity),
            };
        }
        let remaining_qty = node.value.qty - req.qty_to_fill;
        let updated = RestingOrder { id: node.value.id, qty: remaining_qty, timestamp_ns: node.value.timestamp_ns };
        self.replace_order(head, updated, Ghost(0));
        TimedResult {
            timestamp_ns: self.clock.now(),
            result: CommandResult::Filled(
                FillInfo::Partial(
                    PartialFillInfo { order_id: node.value.id, filled_qty: req.qty_to_fill, remaining_qty },
                ),
            ),
        }
    }
}


impl<C: TimeSource> PriceLevelQueue<C> {
    /// How many nodes hold resting orders.
    pub fn arena_len(&self) -> (n: usize)
        requires
            self.wf(),
        ensures
            n == self.arena_count(),
            n == self.orders().len(),
    {
        proof {
            self.lemma_wf_facts();
        }
        self.queue.slot_len() - self.queue.free_len()
    }

    /// How many recycled nodes wait to be reused.
    pub fn freelist_len(&self) -> (n: usize)
        ensures
            n == self.freelist_count(),
    {
        self.queue.free_len()
    }

    /// How many order ids the index holds: one for each resting order.
    pub fn index_len(&self) -> (n: usize)
        requires
            self.wf(),
        ensures
            n == self.orders().len(),
    {
        proof {
            self.lemma_wf_facts();
            let v = self.orders();
            let ids = v.map_values(|o: RestingOrder| o.id);
            assert(ids.no_duplicates()) by {
                assert forall|i: int, j: int|
                    0 <= i < ids.len() && 0 <= j < ids.len() && i != j implies ids[i] != ids[j] by {
                    assert(v[i].id != v[j].id);
                }
            }
            ids.unique_seq_to_set();
            assert forall|id: u64| self.index@.dom().contains(id) <==> #[trigger] ids.to_set().contains(id) by {
                if self.index@.dom().contains(id) {
                    let c = self.queue.chain();
                    let k = c.index_of(self.index@[id]);
                    assert(ids[k] == id);
                }
                if ids.to_set().contains(id) {
                    let k = choose|k: int| 0 <= k < ids.len() && ids[k] == id;
                    assert(self.index@.contains_key(self.queue.values()[k].id));
                }
            }
            assert(self.index@.dom() =~= ids.to_set());
        }
        self.index.len()
    }

    /// The slot of the oldest resting order, if any.
    pub fn head(&self) -> (h: Option<usize>)
        requires
            self.wf(),
        ensures
            h == (if self.slots().len() == 0 {
                None
            } else {
                Some(self.slots()[0])
            }),
    {
        self.queue.head()
    }

    /// The slot of the newest resting order, if any.
    pub fn tail(&self) -> (t: Option<usize>)
        requires
            self.wf(),
        ensures
            t == (if self.slots().len() == 0 {
                None
            } else {
                Some(self.slots().last())
            }),
    {
        self.queue.tail()
    }

    /// The slot of the order with id `order_id`, if it rests here.
    pub fn slot_of(&self, order_id: u64) -> (s: Option<usize>)
        requires
            self.wf(),
        ensures
            s == (if has_order(self.orders(), order_id) {
                Some(self.slots()[position_of(self.orders(), order_id)])
            } else {
                None
            }),
    {
        proof {
            self.lemma_wf_facts();
        }
        match self.index.get(&order_id) {
            Some(s) => {
                proof {
                    let c = self.queue.chain();
                    let k = c.index_of(*s);
                    assert(c[k] == *s);
                    assert(self.orders()[k].id == order_id);
                    assert(position_of(self.orders(), order_id) == k);
                }
                Some(*s)
            },
            None => {
                proof {
                    if has_order(self.orders(), order_id) {
                        let i = choose|i: int| 0 <= i < self.orders().len() && self.orders()[i].id == order_id;
                        assert(self.index@.contains_key(self.queue.values()[i].id));
                    }
                }
                None
            },
        }
    }

    /// The node in `slot`, if the queue has allocated that slot.
    pub fn node(&self, slot: usize) -> (n: Option<OrderNode>)
        ensures
            n == (if slot < self.node_count() {
                Some(self.node_view(slot as int))
            } else {
                None
            }),
    {
        if slot < self.queue.slot_len() {
            let n = self.queue.node(slot);
            Some(OrderNode { ro: n.value, prev: n.prev, next: n.next })
        } else {
            None
        }
    }
}

} // verus!
