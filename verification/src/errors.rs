//! The ways in which parsing or validating protocol versions can fail.

use vstd::prelude::*;

verus! {

/// Why a version set or a protocol entry was rejected.
#[derive(Clone, Copy, Debug, PartialEq, Eq, Hash, Structural)]
pub enum ProtoverError {
    /// Two ranges overlap: a range begins below the end of the one before it.
    Overlap,
    /// A range whose low end lies above its high end.
    LowGreaterThanHigh,
    /// The text does not follow the grammar.
    Unparseable,
    /// A version equal to `u32::MAX`, or more versions than may be expanded.
    ExceedsMax,
    /// A protocol name of more than `MAX_PROTOCOL_NAME_LENGTH` characters.
    ExceedsNameLimit,
    /// A protocol name outside the known protocols.
    UnknownProtocol,
}

} // verus!
