//! Figures about the queue.

use vstd::prelude::*;

verus! {

/// Figures about one queue.
#[derive(Debug, Clone, Copy, PartialEq, Eq, Structural)]
pub struct QueueStats {
    /// Jobs that were submitted.
    pub submitted: u64,
    /// Jobs that wait for a worker.
    pub queued: u64,
    /// Jobs that a worker has.
    pub running: u64,
    /// Jobs that wait for a retry.
    pub retrying: u64,
    /// Jobs that succeeded.
    pub completed: u64,
    /// Jobs that failed for good.
    pub dead: u64,
    /// Jobs that were cancelled.
    pub cancelled: u64,
}

impl Default for QueueStats {
    fn default() -> (stats: Self)
        ensures
            stats == QueueStats::zero(),
    {
        QueueStats {
            submitted: 0,
            queued: 0,
            running: 0,
            retrying: 0,
            completed: 0,
            dead: 0,
            cancelled: 0,
        }
    }
}

impl QueueStats {
    /// All figures zero.
    pub open spec fn zero() -> QueueStats {
        QueueStats {
            submitted: 0,
            queued: 0,
            running: 0,
            retrying: 0,
            completed: 0,
            dead: 0,
            cancelled: 0,
        }
    }
}

/// Figures about all queues, with those of each queue under its name.
#[derive(Debug, PartialEq, Eq)]
pub struct StatsSnapshot {
    pub submitted: u64,
    pub queued: u64,
    pub running: u64,
    pub retrying: u64,
    pub completed: u64,
    pub dead: u64,
    pub cancelled: u64,
    /// Retries that were scheduled.
    pub retried: u64,
    /// Outcomes that came too late to count.
    pub stale_outcomes: u64,
    pub per_queue: Vec<(String, QueueStats)>,
}

impl Default for StatsSnapshot {
    fn default() -> (stats: Self)
        ensures
            stats.submitted == 0,
            stats.queued == 0,
            stats.running == 0,
            stats.retrying == 0,
            stats.completed == 0,
            stats.dead == 0,
            stats.cancelled == 0,
            stats.retried == 0,
            stats.stale_outcomes == 0,
            stats.per_queue@.len() == 0,
    {
        StatsSnapshot {
            submitted: 0,
            queued: 0,
            running: 0,
            retrying: 0,
            completed: 0,
            dead: 0,
            cancelled: 0,
            retried: 0,
            stale_outcomes: 0,
            per_queue: Vec::new(),
        }
    }
}

/// A number of things as a figure, which stops at the largest `u64`.
pub open spec fn figure(n: nat) -> u64 {
    if n > u64::MAX {
        u64::MAX
    } else {
        n as u64
    }
}

/// A figure that counts one more, unless it is at its largest.
pub open spec fn bump(n: u64) -> u64 {
    figure((n + 1) as nat)
}

/// Figures are exact as far as a `u64` goes and stop there, and counting one more
/// adds one.
pub proof fn lemma_figures_are_exact(n: nat, m: u64)
    ensures
        n <= u64::MAX ==> figure(n) == n,
        n > u64::MAX ==> figure(n) == u64::MAX,
        m < u64::MAX ==> bump(m) == m + 1,
        bump(u64::MAX) == u64::MAX,
        bump(figure(n)) == figure(n + 1),
        ({
            let none = QueueStats::zero();
            &&& none.submitted == 0 && none.queued == 0 && none.running == 0
            &&& none.retrying == 0 && none.completed == 0 && none.dead == 0
            &&& none.cancelled == 0
        }),
{
}

} // verus!
