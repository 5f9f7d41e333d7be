use vstd::prelude::*;

verus! {

/// The fatal failure kinds: any of these aborts the whole run.
/// Recoverable conditions (an out-of-order payload, an unresolved publish
/// slot, a disconnect on an untracked slot, an unmatched line) are not
/// errors and are reported through outcome values instead.
#[derive(Clone, Copy, PartialEq, Eq, Structural, Debug)]
pub enum ErrorKind {
    /// A client identifier from which no subscription group can be derived.
    BadClientId,
    /// A capture that should be numeric is empty, not numeric, or out of range.
    MalformedNumber,
    /// A payload timestamp that does not parse.
    BadTimestamp,
    /// A payload action other than connect, disconnect or failed-connect.
    UnknownAction,
    /// A disconnect whose client differs from the slot's recorded occupant.
    ClientMismatch,
    /// A payload for a subscription group with no prior connect record.
    GroupNotTracked,
    /// A line inside a pending message assembly that is not a continuation.
    InterleavedMessage,
    /// A publish-start while a message assembly is still pending.
    PublishWhileAssembling,
    /// A reassembled message with no structured data in it.
    BadPayload,
}

/// A fatal error together with the file and line that produced it.
#[derive(PartialEq, Eq, Debug)]
pub struct FatalError {
    pub kind: ErrorKind,
    pub file: Vec<u8>,
    pub line: u64,
}

} // verus!
