//! What can go wrong with the write-ahead log.

use vstd::prelude::*;

verus! {

/// Errors of the write-ahead log.
#[derive(Debug, PartialEq, Eq)]
#[allow(inconsistent_fields)]
pub enum WalError {
    /// The operating system reported a failure, described by the text.
    Io(String),
    /// Another process holds the log's directory.
    StoreLocked,
    /// The file does not begin with a log header.
    InvalidWalHeader,
    /// The log was written in a format of another version.
    UnsupportedWalVersion(u16),
    /// A record was written in a format of another version.
    UnsupportedRecordVersion(u8),
    /// A record's payload has more bytes than a frame may hold.
    RecordTooLarge(usize),
    /// A payload is no record, for the reason in the text.
    Serialization(String),
    /// A frame's stored checksum is not that of its bytes.
    ChecksumMismatch { expected: u32, computed: u32 },
    /// A frame does not carry the next sequence number.
    SequenceViolation { expected: u64, got: u64 },
    /// The bytes end before the frame does.
    TruncatedFrame,
    /// The log could not be forced to disk.
    SyncFailed,
    /// The log's writer is gone.
    WriterChannelClosed,
    /// A recovered job belongs to a queue that is not configured.
    RecoveryQueueNotFound(String),
    /// More jobs were recovered than their queue may hold.
    RecoveryCapacityExceeded { queue: String, recovered: usize, capacity: usize },
    /// No sequence number is left.
    SequenceExhausted,
    /// No lease epoch is left.
    LeaseEpochExhausted,
    /// The recovered state contradicts itself, as the text says.
    RecoveryStateError(String),
}

/// What a [`WalError`] says, with texts as sequences of characters.
#[verifier::ext_equal]
#[allow(inconsistent_fields)]
pub enum WalFault {
    Io(Seq<char>),
    StoreLocked,
    InvalidWalHeader,
    UnsupportedWalVersion(u16),
    UnsupportedRecordVersion(u8),
    RecordTooLarge(nat),
    Serialization(Seq<char>),
    ChecksumMismatch { expected: u32, computed: u32 },
    SequenceViolation { expected: u64, got: u64 },
    TruncatedFrame,
    SyncFailed,
    WriterChannelClosed,
    RecoveryQueueNotFound(Seq<char>),
    RecoveryCapacityExceeded { queue: Seq<char>, recovered: nat, capacity: nat },
    SequenceExhausted,
    LeaseEpochExhausted,
    RecoveryStateError(Seq<char>),
}

impl View for WalError {
    type V = WalFault;

    open spec fn view(&self) -> WalFault {
        match *self {
            WalError::Io(text) => WalFault::Io(text@),
            WalError::StoreLocked => WalFault::StoreLocked,
            WalError::InvalidWalHeader => WalFault::InvalidWalHeader,
            WalError::UnsupportedWalVersion(version) => WalFault::UnsupportedWalVersion(version),
            WalError::UnsupportedRecordVersion(version) => WalFault::UnsupportedRecordVersion(
                version,
            ),
            WalError::RecordTooLarge(size) => WalFault::RecordTooLarge(size as nat),
            WalError::Serialization(text) => WalFault::Serialization(text@),
            WalError::ChecksumMismatch { expected, computed } => WalFault::ChecksumMismatch {
                expected,
                computed,
            },
            WalError::SequenceViolation { expected, got } => WalFault::SequenceViolation {
                expected,
                got,
            },
            WalError::TruncatedFrame => WalFault::TruncatedFrame,
            WalError::SyncFailed => WalFault::SyncFailed,
            WalError::WriterChannelClosed => WalFault::WriterChannelClosed,
            WalError::RecoveryQueueNotFound(queue) => WalFault::RecoveryQueueNotFound(queue@),
            WalError::RecoveryCapacityExceeded { queue, recovered, capacity } =>
                WalFault::RecoveryCapacityExceeded {
                queue: queue@,
                recovered: recovered as nat,
                capacity: capacity as nat,
            },
            WalError::SequenceExhausted => WalFault::SequenceExhausted,
            WalError::LeaseEpochExhausted => WalFault::LeaseEpochExhausted,
            WalError::RecoveryStateError(text) => WalFault::RecoveryStateError(text@),
        }
    }
}

/// The result of an operation on the log.
pub type WalResult<T> = std::result::Result<T, WalError>;

} // verus!
