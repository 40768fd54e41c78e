//! The ways an operation on save files can fail.
use vstd::prelude::*;

verus! {

/// Why a file could not be read, or an entity not be changed.
#[derive(Debug, Clone, Copy, PartialEq, Eq, Structural)]
pub enum ErrorKind {
    /// No file exists for the player id.
    NotFound,
    /// The content is malformed, not UTF-8, or ends too early.
    ParseError,
    /// Reading, writing or copying a file failed.
    IOError,
    /// The change would put more entries into a list than its hard capacity allows.
    CapacityExceeded,
    /// The entity has fewer job points than the change costs.
    InsufficientBalance,
}

} // verus!
