use vstd::prelude::*;

verus! {

/// A request to append an order to a price level.
#[derive(Debug, Clone, Copy)]
pub struct EnqueueOrder {
    pub order_id: u64,
    pub qty: u64,
}

} // verus!
