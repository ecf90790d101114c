//! Who may submit a job.

use crate::error::{Error, Fault, Result};
use crate::types::QueueName;
use vstd::prelude::*;

verus! {

/// What came of asking for a place in a queue.
#[derive(Debug, Clone, Copy, PartialEq, Eq, Structural)]
pub enum Place {
    /// There is no such queue.
    Unknown,
    /// The place was given.
    Granted,
    /// None is free.
    Full,
    /// None is given any more.
    Closed,
}

/// What a submission that waits for a place is refused for, if for anything. It
/// is never refused for want of one.
pub open spec fn submit_refusal(place: Place, queue: Seq<char>) -> Option<Fault> {
    match place {
        Place::Unknown => Some(Fault::QueueNotFound(queue)),
        Place::Closed => Some(Fault::ShuttingDown),
        _ => None,
    }
}

/// What a submission that does not wait is refused for, if for anything.
pub open spec fn try_submit_refusal(place: Place, queue: Seq<char>) -> Option<Fault> {
    match place {
        Place::Unknown => Some(Fault::QueueNotFound(queue)),
        Place::Granted => None,
        _ => Some(Fault::QueueFull(queue)),
    }
}

/// Judges a submission that waits for a place: `true` once it has one, `false`
/// while it must wait.
pub fn judge_submit(place: Place, queue: &QueueName) -> (outcome: Result<bool>)
    ensures
        match submit_refusal(place, queue@) {
            Some(fault) => outcome matches Err(error) && error@ == fault,
            None => outcome matches Ok(granted) && granted == (place == Place::Granted),
        },
{
    match place {
        Place::Unknown => Err(Error::QueueNotFound(queue.as_str().to_owned())),
        Place::Granted => Ok(true),
        Place::Full => Ok(false),
        Place::Closed => Err(Error::ShuttingDown),
    }
}

/// Judges a submission that does not wait: it has a place, or is refused.
pub fn judge_try_submit(place: Place, queue: &QueueName) -> (outcome: Result<()>)
    ensures
        match try_submit_refusal(place, queue@) {
            Some(fault) => outcome matches Err(error) && error@ == fault,
            None => outcome is Ok,
        },
{
    match place {
        Place::Unknown => Err(Error::QueueNotFound(queue.as_str().to_owned())),
        Place::Granted => Ok(()),
        Place::Full => Err(Error::QueueFull(queue.as_str().to_owned())),
        Place::Closed => Err(Error::QueueFull(queue.as_str().to_owned())),
    }
}

/// A submission goes on where it has its place, and only there. One that waits goes
/// on waiting while none is free, and is told of a shutdown; one that does not is
/// told in both cases that the queue is full. An unknown queue is told to both.
pub proof fn lemma_submissions_need_a_place(place: Place, queue: Seq<char>)
    ensures
        try_submit_refusal(place, queue) is None <==> place == Place::Granted,
        submit_refusal(place, queue) is None <==> place == Place::Granted || place == Place::Full,
        submit_refusal(place, queue) == Some(Fault::ShuttingDown) <==> place == Place::Closed,
        try_submit_refusal(place, queue) == Some(Fault::QueueFull(queue)) <==> place == Place::Full
            || place == Place::Closed,
        submit_refusal(place, queue) == Some(Fault::QueueNotFound(queue)) <==> place
            == Place::Unknown,
        try_submit_refusal(place, queue) == Some(Fault::QueueNotFound(queue)) <==> place
            == Place::Unknown,
{
}

} // verus!
