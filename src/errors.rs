use vstd::prelude::*;

verus! {

/// What can go wrong inside the engine.
#[derive(Debug, Clone, Copy, PartialEq, Eq, Structural)]
pub enum KvsError {
    /// Key was not found
    KeyNotFound,
    /// No key was given
    KeyNotTyped,
    /// An index entry names a segment that the store does not hold,
    /// or the segment ids ran out
    OtherError,
    /// A frame does not fit in its segment
    NoValueOfSize,
    /// An offset lies outside its segment
    OffsetSubZero,
}

/// Storage engines that the service can be configured with.
#[derive(Debug, Clone, Copy, PartialEq, Eq, Structural)]
pub enum KvsStorageEngine {
    KvsEngine,
    Sled,
}

} // verus!
