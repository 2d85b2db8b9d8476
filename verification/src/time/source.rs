use vstd::prelude::*;

verus! {

/// A source of timestamps for the results of commands.
pub trait TimeSource {
    fn now(&self) -> u64;
}

} // verus!
