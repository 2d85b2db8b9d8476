//! Structs to act on the order book.
//!
//! The API is exposed through public request structs, which keep the
//! internal state (such as the resting orders) hidden. Commands can be
//! stored and replayed so that a replicated or recovered book reaches the
//! same state.

use vstd::prelude::*;

use crate::domain::responses::TimedResult;
use crate::order_book::price_level::price_level::PriceLevelQueue;
use crate::time::TimeSource;

verus! {

/// A command that can be applied to a price level.
pub trait OrderCommand {
    fn apply<C: TimeSource>(self, price_level_queue: &mut PriceLevelQueue<C>) -> TimedResult;
}

#[derive(Debug)]
pub struct NewOrderRequest {
    pub order_id: u64,
    pub price: u64,
    pub qty: u64,
}

#[derive(Debug)]
pub struct CancelRequest {
    pub order_id: u64,
}

#[derive(Debug)]
pub struct UpdateQtyRequest {
    pub order_id: u64,
    pub new_qty: u64,
}

#[derive(Debug)]
pub struct PartialFillRequest {
    pub qty_to_fill: u64,
}

} // verus!
