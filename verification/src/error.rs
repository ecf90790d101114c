//! What can go wrong with the queue.

use crate::types::JobState;
use crate::wal::error::{WalError, WalFault};
use vstd::prelude::*;

verus! {

/// Errors of the queue.
#[derive(Debug, PartialEq, Eq)]
pub enum Error {
    /// No queue has that name.
    QueueNotFound(String),
    /// The queue of that name holds as many jobs as it may.
    QueueFull(String),
    /// The empty string names no queue.
    InvalidQueueName,
    /// The configuration cannot be used, for the reason in the text.
    InvalidConfiguration(String),
    /// No job has that identifier.
    JobNotFound(String),
    /// A job cannot go from the one state to the other.
    InvalidTransition { from: JobState, to: JobState },
    /// The job of that identifier has a newer lease.
    StaleLease(String),
    /// The queue no longer accepts work.
    ShuttingDown,
    /// The payload has more bytes (the first number) than it may (the second).
    PayloadTooLarge(usize, usize),
    /// The log failed.
    Storage(WalError),
}

/// What an [`Error`] says, with texts as sequences of characters.
#[verifier::ext_equal]
pub enum Fault {
    QueueNotFound(Seq<char>),
    QueueFull(Seq<char>),
    InvalidQueueName,
    InvalidConfiguration(Seq<char>),
    JobNotFound(Seq<char>),
    InvalidTransition { from: JobState, to: JobState },
    StaleLease(Seq<char>),
    ShuttingDown,
    PayloadTooLarge(nat, nat),
    Storage(WalFault),
}

impl View for Error {
    type V = Fault;

    open spec fn view(&self) -> Fault {
        match *self {
            Error::QueueNotFound(queue) => Fault::QueueNotFound(queue@),
            Error::QueueFull(queue) => Fault::QueueFull(queue@),
            Error::InvalidQueueName => Fault::InvalidQueueName,
            Error::InvalidConfiguration(text) => Fault::InvalidConfiguration(text@),
            Error::JobNotFound(id) => Fault::JobNotFound(id@),
            Error::InvalidTransition { from, to } => Fault::InvalidTransition { from, to },
            Error::StaleLease(id) => Fault::StaleLease(id@),
            Error::ShuttingDown => Fault::ShuttingDown,
            Error::PayloadTooLarge(size, limit) => Fault::PayloadTooLarge(
                size as nat,
                limit as nat,
            ),
            Error::Storage(error) => Fault::Storage(error@),
        }
    }
}

/// The result of an operation on the queue.
pub type Result<T> = std::result::Result<T, Error>;

impl From<WalError> for Error {
    fn from(error: WalError) -> (wrapped: Error) {
        Error::Storage(error)
    }
}

impl vstd::std_specs::convert::FromSpecImpl<WalError> for Error {
    open spec fn obeys_from_spec() -> bool {
        true
    }

    open spec fn from_spec(error: WalError) -> Error {
        Error::Storage(error)
    }
}

} // verus!
