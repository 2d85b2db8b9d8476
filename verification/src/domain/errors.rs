use vstd::prelude::*;

verus! {

/// Why a command was refused.
#[derive(Debug, PartialEq, Eq)]
pub enum OrderBookError {
    OrderNotInArena,
    OrderNotFound,
    DuplicateOrderId,
    InsufficientQuantity,
    EmptyPriceLevel,
}

} // verus!
