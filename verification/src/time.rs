//! Sources of timestamps.

pub mod quanta_clock;
pub mod source;

pub use source::TimeSource;
