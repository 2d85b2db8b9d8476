//! Orders and the book that groups them by side and price.

use dashmap::DashMap;
use quanta::Clock;
use std::collections::VecDeque;
use vstd::prelude::*;

use crate::time::quanta_clock::{clock_nanos, is_reading, raw_reading};

verus! {

#[verifier::external_type_specification]
#[verifier::external_body]
#[verifier::reject_recursive_types(K)]
#[verifier::reject_recursive_types(V)]
#[verifier::reject_recursive_types(S)]
pub struct ExDashMap<K, V, S>(DashMap<K, V, S>);

/// The side of the book an order rests on.
#[derive(Debug, Clone, Copy, PartialEq, Eq)]
pub enum Side {
    BUY,
    SELL,
}

/// The life cycle of an order.
#[allow(dead_code)]
enum OrderStatus {
    New,
    PartiallyFilled,
    Filled,
    Cancelled,
}

/// An order: its price is in the smallest units (e.g. cents).
#[derive(Debug, Clone, Copy, PartialEq, Eq)]
pub struct Order {
    pub id: u64,
    pub price: u64,
    pub quantity: u64,
    pub side: Side,
    pub timestamp_ns: u64,
}

impl Order {
    /// An order stamped with `clock`'s raw reading at the moment of creation.
    pub fn create(id: u64, price: u64, quantity: u64, side: Side, clock: &Clock) -> (order: Self)
        ensures
            order.id == id,
            order.price == price,
            order.quantity == quantity,
            order.side == side,
            is_reading(clock, order.timestamp_ns),
            call_ensures(raw_reading, (clock,), order.timestamp_ns),
    {
        Self { id, price, quantity, side, timestamp_ns: clock_nanos(clock) }
    }
}

/// An order created from `id`, `price`, `quantity`, `side` and `clock` has
/// exactly those fields, and its timestamp is a value that `Clock::raw`
/// returned on that clock during the creation.
pub proof fn law_created_order_is_stamped_by_its_clock(
    id: u64,
    price: u64,
    quantity: u64,
    side: Side,
    clock: &Clock,
    order: Order,
)
    requires
        call_ensures(Order::create, (id, price, quantity, side, clock), order),
    ensures
        order.id == id,
        order.price == price,
        order.quantity == quantity,
        order.side == side,
        call_ensures(raw_reading, (clock,), order.timestamp_ns),
{
}

/// What a map from prices to queues of orders holds: for each price, the
/// orders in their queue, front first.
pub uninterp spec fn price_levels(levels: DashMap<u64, VecDeque<Order>>) -> Map<u64, Seq<Order>>;

/// What a map from order ids to their price and side holds.
pub uninterp spec fn order_locations(locations: DashMap<u64, (u64, Side)>) -> Map<u64, (u64, Side)>;

/// `dashmap::DashMap::new`, for a map from prices to queues of orders: the map
/// it creates holds no entry.
#[verifier::external_body]
fn new_price_levels() -> (levels: DashMap<u64, VecDeque<Order>>)
    ensures
        price_levels(levels).dom().is_empty(),
{
    DashMap::new()
}

/// `dashmap::DashMap::new`, for a map from order ids to price and side: the
/// map it creates holds no entry.
#[verifier::external_body]
fn new_order_locations() -> (locations: DashMap<u64, (u64, Side)>)
    ensures
        order_locations(locations).dom().is_empty(),
{
    DashMap::new()
}

/// `dashmap::DashMap::remove`: takes the entry of `price` out of the map and
/// returns its key and queue, or returns `None` and leaves the map as it was
/// when there is no such entry.
#[verifier::external_body]
fn take_level(levels: &mut DashMap<u64, VecDeque<Order>>, price: u64) -> (taken: Option<(u64, VecDeque<Order>)>)
    ensures
        match taken {
            Some((key, queue)) => {
                &&& price_levels(*old(levels)).dom().contains(price)
                &&& key == price
                &&& queue@ == price_levels(*old(levels))[price]
                &&& price_levels(*final(levels)) == price_levels(*old(levels)).remove(price)
            },
            None => {
                &&& !price_levels(*old(levels)).dom().contains(price)
                &&& price_levels(*final(levels)) == price_levels(*old(levels))
            },
        },
{
    levels.remove(&price)
}

/// `dashmap::DashMap::insert`: maps `price` to `queue`, returning the queue it
/// replaced, if there was one.
#[verifier::external_body]
fn put_level(levels: &mut DashMap<u64, VecDeque<Order>>, price: u64, queue: VecDeque<Order>) -> (replaced: Option<VecDeque<Order>>)
    ensures
        price_levels(*final(levels)) == price_levels(*old(levels)).insert(price, queue@),
        replaced.is_some() == price_levels(*old(levels)).dom().contains(price),
        replaced.is_some() ==> replaced.unwrap()@ == price_levels(*old(levels))[price],
{
    levels.insert(price, queue)
}

/// `dashmap::DashMap::len`: the number of entries in the map.
#[verifier::external_body]
fn level_count(levels: &DashMap<u64, VecDeque<Order>>) -> (n: usize)
    ensures
        n == price_levels(*levels).dom().len(),
{
    levels.len()
}

/// The queue at `price` after `order` has joined it: an absent level counts
/// as an empty queue.
pub open spec fn level_with(levels: Map<u64, Seq<Order>>, price: u64, order: Order) -> Map<u64, Seq<Order>> {
    let queue = if levels.dom().contains(price) {
        levels[price]
    } else {
        Seq::empty()
    };
    levels.insert(price, queue.push(order))
}

/// Buy and sell orders grouped by price level.
pub struct OrderBook {
    bids: DashMap<u64, VecDeque<Order>>,
    asks: DashMap<u64, VecDeque<Order>>,
    price_level_by_id: DashMap<u64, (u64, Side)>,
}

impl OrderBook {
    /// The buy orders, by price.
    pub closed spec fn bid_levels(&self) -> Map<u64, Seq<Order>> {
        price_levels(self.bids)
    }

    /// The sell orders, by price.
    pub closed spec fn ask_levels(&self) -> Map<u64, Seq<Order>> {
        price_levels(self.asks)
    }

    /// The recorded price and side of each order id.
    pub closed spec fn locations(&self) -> Map<u64, (u64, Side)> {
        order_locations(self.price_level_by_id)
    }

    /// Both sides hold finitely many price levels.
    pub closed spec fn wf(&self) -> bool {
        &&& price_levels(self.bids).dom().finite()
        &&& price_levels(self.asks).dom().finite()
    }

    /// An empty book.
    pub fn new() -> (book: Self)
        ensures
            book.wf(),
            book.bid_levels() == Map::<u64, Seq<Order>>::empty(),
            book.ask_levels() == Map::<u64, Seq<Order>>::empty(),
            book.locations() == Map::<u64, (u64, Side)>::empty(),
    {
        let book = Self {
            bids: new_price_levels(),
            asks: new_price_levels(),
            price_level_by_id: new_order_locations(),
        };
        proof {
            assert(book.bid_levels() =~= Map::<u64, Seq<Order>>::empty());
            assert(book.ask_levels() =~= Map::<u64, Seq<Order>>::empty());
            assert(book.locations() =~= Map::<u64, (u64, Side)>::empty());
        }
        book
    }

    /// Appends `order` at the back of the queue of its price on its side.
    fn push_to_level(levels: &mut DashMap<u64, VecDeque<Order>>, order: Order)
        requires
            price_levels(*old(levels)).dom().finite(),
        ensures
            price_levels(*final(levels)) == level_with(price_levels(*old(levels)), order.price, order),
            price_levels(*final(levels)).dom().finite(),
    {
        let mut queue = match take_level(levels, order.price) {
            Some((_, queue)) => queue,
            None => VecDeque::new(),
        };
        queue.push_back(order);
        let _ = put_level(levels, order.price, queue);
        proof {
            assert(price_levels(*levels) =~= level_with(price_levels(*old(levels)), order.price, order));
        }
    }

    /// Adds `order` at the back of the queue of its price on its side; the
    /// other side is unchanged.
    pub fn add_order(&mut self, order: Order)
        requires
            old(self).wf(),
        ensures
            final(self).wf(),
            final(self).locations() == old(self).locations(),
            order.side == Side::BUY ==> {
                &&& final(self).bid_levels() == level_with(old(self).bid_levels(), order.price, order)
                &&& final(self).ask_levels() == old(self).ask_levels()
            },
            order.side == Side::SELL ==> {
                &&& final(self).ask_levels() == level_with(old(self).ask_levels(), order.price, order)
                &&& final(self).bid_levels() == old(self).bid_levels()
            },
    {
        match order.side {
            Side::BUY => Self::push_to_level(&mut self.bids, order),
            Side::SELL => Self::push_to_level(&mut self.asks, order),
        }
    }

    /// The number of price levels on the buy side.
    pub fn bids_len(&self) -> (n: usize)
        ensures
            n == self.bid_levels().dom().len(),
    {
        level_count(&self.bids)
    }

    /// The number of price levels on the sell side.
    pub fn asks_len(&self) -> (n: usize)
        ensures
            n == self.ask_levels().dom().len(),
    {
        level_count(&self.asks)
    }
}

} // verus!
