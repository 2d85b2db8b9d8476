use vstd::prelude::*;

verus! {

/// An order waiting at a price level.
#[derive(Debug, Clone, Copy, PartialEq, Eq)]
pub struct RestingOrder {
    pub id: u64,
    pub qty: u64,
    pub timestamp_ns: u64,
}

/// A resting order together with the slots of its neighbours in the queue.
#[derive(Debug, Clone, Copy, PartialEq, Eq)]
pub struct OrderNode {
    pub ro: RestingOrder,
    pub prev: Option<usize>,
    pub next: Option<usize>,
}

} // verus!
