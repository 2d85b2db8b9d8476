//! The queue of resting orders at one price level.

#[allow(clippy::module_inception)]
pub mod price_level;
pub mod requests;
pub mod resting_order_node;
