//! The error kinds that the library reports.

use vstd::prelude::*;
use vstd::string::StringExecFns;

verus! {

/// What went wrong in an operation of the store or of the protocol.
#[derive(Clone, Copy, Debug, PartialEq, Eq, Structural)]
pub enum KvsError {
    /// The key has no live value.
    KeyNotFound,
    /// Bytes that should hold a record or a message do not.
    Decode,
    /// A record or a segment would outgrow what 32-bit offsets can address.
    TooLarge,
    /// No further segment id is left.
    SegmentsExhausted,
    /// A segment was loaded whose id is not above those loaded before it.
    SegmentOrder,
    /// The stream ended in the middle of a message.
    ConnectionReset,
    /// Storage or the network failed.
    Io,
    /// A lock was left poisoned by a thread that panicked.
    LockPoisoned,
    /// The directory holds the database of another engine.
    EngineMismatch,
}

/// The text that tells a user of the error.
pub open spec fn message_text(error: KvsError) -> Seq<char> {
    match error {
        KvsError::KeyNotFound => "Key not found"@,
        KvsError::Decode => "malformed record or message"@,
        KvsError::TooLarge => "record too large"@,
        KvsError::SegmentsExhausted => "no segment id left"@,
        KvsError::SegmentOrder => "segment out of order"@,
        KvsError::ConnectionReset => "connection reset by peer"@,
        KvsError::Io => "input or output failed"@,
        KvsError::LockPoisoned => "lock poisoned"@,
        KvsError::EngineMismatch => "the directory belongs to another engine"@,
    }
}

impl KvsError {
    /// The text that tells a user of the error.
    pub fn message(&self) -> (text: String)
        ensures
            text@ == message_text(*self),
    {
        match self {
            KvsError::KeyNotFound => String::from_str("Key not found"),
            KvsError::Decode => String::from_str("malformed record or message"),
            KvsError::TooLarge => String::from_str("record too large"),
            KvsError::SegmentsExhausted => String::from_str("no segment id left"),
            KvsError::SegmentOrder => String::from_str("segment out of order"),
            KvsError::ConnectionReset => String::from_str("connection reset by peer"),
            KvsError::Io => String::from_str("input or output failed"),
            KvsError::LockPoisoned => String::from_str("lock poisoned"),
            KvsError::EngineMismatch => String::from_str("the directory belongs to another engine"),
        }
    }
}

} // verus!
