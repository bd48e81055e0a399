use vstd::prelude::*;

pub mod bloomfilter;
pub mod heap;
pub mod utils;

verus! {

/// A construction parameter that would leave a structure unusable.
#[derive(Debug, Clone, Copy, PartialEq, Eq, Structural)]
pub enum ConfigError {
    /// The filter was given no bytes of storage.
    ZeroBytes,
    /// The filter was given no hash functions.
    ZeroHashers,
    /// The heap was given a fan-out of zero.
    ZeroChildren,
}

} // verus!
