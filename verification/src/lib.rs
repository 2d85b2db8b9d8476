//! Price-level order queues for a limit order book: resting orders are kept
//! in first-in, first-out order in an arena of recyclable nodes, indexed by
//! order id.

pub mod arena_list;
pub mod collection;
pub mod domain;
pub mod order_book;
pub mod time;
