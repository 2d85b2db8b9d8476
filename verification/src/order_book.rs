//! Orders, the book of price levels on both sides, and the queue of resting
//! orders at one price.

pub mod order;
pub mod price_level;

pub use order::{Order, Side};
