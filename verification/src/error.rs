//! Typed errors for the streaming core. Decode and validation failures
//! surface as values of this enum; verified code never panics.

use vstd::prelude::*;

verus! {

/// Every failure the core can report.
#[derive(Clone, Copy, Debug, PartialEq, Eq, Structural)]
pub enum CoreError {
    /// A wire payload is truncated, overruns its buffer, or holds a
    /// name field that is not valid UTF-8.
    MalformedPayload,
    /// A stream, topic, partition, group or member is absent.
    NotFound,
    /// A create was issued for an id that is already taken.
    AlreadyExists,
    /// A request is valid in shape but not against the current state,
    /// such as creating a topic with no partitions.
    InvalidState,
    /// A remote response carried a non-zero status byte; the code is kept.
    ProtocolStatus(u8),
}

} // verus!
