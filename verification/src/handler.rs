//! What a handler is given, and what becomes of its result.

use crate::coordinator::model::WorkerOutcome;
use crate::types::{JobId, LeaseId, QueueName};
use vstd::prelude::*;

verus! {

/// Why a handler failed. The text describes the cause.
#[derive(Debug, PartialEq, Eq)]
pub enum JobError {
    /// A failure that may pass: the job is tried again if an attempt is left.
    Retryable(String),
    /// A failure for good: the job is dead at once.
    Fatal(String),
}

impl JobError {
    /// A failure that may pass.
    pub fn retryable(cause: String) -> (error: Self)
        ensures
            error == JobError::Retryable(cause),
    {
        JobError::Retryable(cause)
    }

    /// A failure for good.
    pub fn fatal(cause: String) -> (error: Self)
        ensures
            error == JobError::Fatal(cause),
    {
        JobError::Fatal(cause)
    }

    /// Whether the failure may pass.
    pub fn is_retryable(&self) -> (retryable: bool)
        ensures
            retryable == (self is Retryable),
    {
        matches!(self, JobError::Retryable(_))
    }

    /// The failure in words: its kind, then its cause.
    pub fn to_text(&self) -> (text: String)
        ensures
            text@ == (match *self {
                JobError::Retryable(cause) => "retryable: "@ + cause@,
                JobError::Fatal(cause) => "fatal: "@ + cause@,
            }),
    {
        match self {
            JobError::Retryable(cause) => {
                let mut text = "retryable: ".to_owned();
                text.append(cause.as_str());
                text
            },
            JobError::Fatal(cause) => {
                let mut text = "fatal: ".to_owned();
                text.append(cause.as_str());
                text
            },
        }
    }
}

/// What a handler is told of its job.
#[derive(Debug, PartialEq, Eq)]
pub struct JobContext {
    pub id: JobId,
    pub queue: QueueName,
    pub payload: Vec<u8>,
    /// The number of this attempt, the first being 1.
    pub attempt: u32,
    pub max_attempts: u32,
}

/// A job in the hands of a worker.
#[derive(Debug, PartialEq, Eq)]
pub struct LeasedJob {
    pub context: JobContext,
    pub lease_id: LeaseId,
}

/// How the execution of a handler ended.
#[derive(Debug, PartialEq, Eq)]
pub enum Execution {
    /// The handler returned.
    Returned(Result<(), JobError>),
    /// The handler did not return: it panicked or its task was lost.
    Lost,
    /// The queue shut down before the handler returned.
    Interrupted,
}

impl Execution {
    /// What an execution counts as.
    pub open spec fn counts_as(self) -> WorkerOutcome {
        match self {
            Execution::Returned(Ok(_)) => WorkerOutcome::Success,
            Execution::Returned(Err(JobError::Retryable(_))) => WorkerOutcome::Retryable,
            Execution::Returned(Err(JobError::Fatal(_))) => WorkerOutcome::Fatal,
            Execution::Lost => WorkerOutcome::Panic,
            Execution::Interrupted => WorkerOutcome::Retryable,
        }
    }

    /// The outcome to report. A lost handler counts as a panic, and one that was
    /// interrupted may be tried again.
    pub fn outcome(&self) -> (outcome: WorkerOutcome)
        ensures
            outcome == self.counts_as(),
    {
        match self {
            Execution::Returned(Ok(())) => WorkerOutcome::Success,
            Execution::Returned(Err(error)) => if error.is_retryable() {
                WorkerOutcome::Retryable
            } else {
                WorkerOutcome::Fatal
            },
            Execution::Lost => WorkerOutcome::Panic,
            Execution::Interrupted => WorkerOutcome::Retryable,
        }
    }
}

/// An execution counts as a success only where the handler returned one. A failure
/// is for good only where the handler said so: a shutdown is a failure that may
/// pass, and a lost handler is a panic.
pub proof fn lemma_executions_count_as_reported(execution: Execution)
    ensures
        execution.counts_as() == WorkerOutcome::Success <==> (execution is Returned
            && execution->Returned_0 is Ok),
        execution.counts_as() == WorkerOutcome::Fatal <==> (execution is Returned
            && execution->Returned_0 is Err && execution->Returned_0->Err_0 is Fatal),
        execution.counts_as() == WorkerOutcome::Panic <==> execution is Lost,
        execution.counts_as() == WorkerOutcome::Retryable <==> execution is Interrupted || (
        execution is Returned && execution->Returned_0 is Err
            && execution->Returned_0->Err_0 is Retryable),
{
}

} // verus!
