//! The requests that act on the order book, the outcomes they produce and
//! the reasons for which they are refused.

pub mod commands;
pub mod errors;
pub mod responses;
