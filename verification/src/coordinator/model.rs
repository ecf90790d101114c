//! What the coordinator's state means and how it changes.

use crate::config;
use crate::config::{Jitter, RetryConfig};
use crate::stats;
use crate::store;
use crate::types::{JobState, JobView, UnixMillis};
use crate::wal::record::RecordView;
use vstd::prelude::*;

verus! {

/// The clocks: the monotonic one, in nanoseconds, and the one on the wall.
#[derive(Debug, Clone, Copy, PartialEq, Eq, Structural)]
pub struct Clock {
    pub now: u128,
    pub wall: UnixMillis,
}

/// What a worker reports of a job.
#[derive(Debug, Clone, Copy, PartialEq, Eq, Structural)]
pub enum WorkerOutcome {
    /// The handler succeeded.
    Success,
    /// The handler failed in a way that may pass.
    Retryable,
    /// The handler failed for good.
    Fatal,
    /// The handler panicked.
    Panic,
}

/// A lease on a running job.
#[derive(Debug, Clone, Copy, PartialEq, Eq, Structural)]
pub struct ActiveLease {
    pub job: u128,
    pub lease_id: u64,
    /// When the lease ends by itself.
    pub deadline: u128,
}

/// A retry that is to come.
#[derive(Debug, Clone, Copy, PartialEq, Eq, Structural)]
pub struct RetryEntry {
    /// When the retry is due.
    pub available_at: u128,
    pub job: u128,
}

/// Figures that are not kept queue by queue.
#[derive(Debug, Clone, Copy, PartialEq, Eq, Structural)]
pub struct GlobalStats {
    pub submitted: u64,
    pub retried: u64,
    pub stale_outcomes: u64,
}

/// A queue: its ready jobs, first to run first, and what it has counted.
#[verifier::ext_equal]
pub struct QueueView {
    pub name: Seq<char>,
    pub ready: Seq<u128>,
    pub submitted: u64,
    pub completed: u64,
    pub dead: u64,
    pub cancelled: u64,
}

/// The state of the coordinator.
#[verifier::ext_equal]
pub struct CoordinatorView {
    pub jobs: Map<u128, JobView>,
    pub queues: Seq<QueueView>,
    /// The leases, oldest first.
    pub leases: Seq<ActiveLease>,
    /// The retries to come, first due first.
    pub retries: Seq<RetryEntry>,
    /// The workers that wait for a job, longest waiting first.
    pub parked: Seq<u64>,
    /// The queue whose turn it is.
    pub cursor: nat,
    pub next_lease_epoch: u64,
    pub totals: GlobalStats,
    pub shutting_down: bool,
    /// When a shutdown stops waiting for running jobs.
    pub drain_deadline: u128,
    /// Whether running jobs were given up.
    pub abandoned: bool,
    pub retry: RetryConfig,
    pub visibility_timeout: u128,
    pub shutdown_timeout: u128,
}

/// The queues after a change to the one of the given name.
pub open spec fn adjust(
    queues: Seq<QueueView>,
    name: Seq<char>,
    change: spec_fn(QueueView) -> QueueView,
) -> Seq<QueueView> {
    queues.map_values(
        |q: QueueView|
            if q.name == name {
                change(q)
            } else {
                q
            },
    )
}

/// Whether there is a queue of the given name.
pub open spec fn has_queue(queues: Seq<QueueView>, name: Seq<char>) -> bool {
    exists|i: int| 0 <= i < queues.len() && (#[trigger] queues[i]).name == name
}

/// Where the queue of the given name stands.
pub open spec fn queue_index(queues: Seq<QueueView>, name: Seq<char>) -> int {
    choose|i: int| 0 <= i < queues.len() && (#[trigger] queues[i]).name == name
}

/// Whether a job has a lease.
pub open spec fn leased(leases: Seq<ActiveLease>, id: u128) -> bool {
    exists|k: int| 0 <= k < leases.len() && (#[trigger] leases[k]).job == id
}

/// Where the lease of a job stands.
pub open spec fn lease_index(leases: Seq<ActiveLease>, id: u128) -> int {
    choose|k: int| 0 <= k < leases.len() && (#[trigger] leases[k]).job == id
}

/// Whether a job has a retry to come.
pub open spec fn scheduled(retries: Seq<RetryEntry>, id: u128) -> bool {
    exists|k: int| 0 <= k < retries.len() && (#[trigger] retries[k]).job == id
}

/// Where a retry that is due at the given time belongs: behind those that are
/// due no later.
pub open spec fn retry_position(retries: Seq<RetryEntry>, at: u128) -> int
    decreases retries.len(),
{
    if retries.len() == 0 {
        0
    } else if retries.last().available_at <= at {
        retries.len() as int
    } else {
        retry_position(retries.drop_last(), at)
    }
}

/// The retries with one more.
pub open spec fn with_retry(retries: Seq<RetryEntry>, entry: RetryEntry) -> Seq<RetryEntry> {
    retries.insert(retry_position(retries, entry.available_at), entry)
}

/// One millisecond, in nanoseconds.
pub const MILLISECOND: u128 = 1_000_000;

/// The moment on the wall clock that lies a delay ahead, to the next whole
/// millisecond; the last moment there is, where it would lie beyond that.
pub open spec fn wall_after(wall: i64, delay: u128) -> i64 {
    let at = wall + (delay + 999_999) / 1_000_000;
    if at > i64::MAX {
        i64::MAX
    } else {
        at as i64
    }
}

/// The moment on the monotonic clock that a moment on the wall clock stands for;
/// the present one for every moment that is past.
pub open spec fn monotonic(clock: Clock, at: i64) -> u128 {
    let ahead = if at > clock.wall.0 {
        at - clock.wall.0
    } else {
        0
    };
    let moment = clock.now + ahead * 1_000_000;
    if moment > u128::MAX {
        u128::MAX
    } else {
        moment as u128
    }
}

/// The delay before the retry that follows an attempt, where `sample` out of
/// `u32::MAX` is the part of it that jitter leaves.
pub open spec fn retry_delay(retry: RetryConfig, attempt: u32, sample: u32) -> u128 {
    let delay = config::backoff(retry.base_delay as nat, retry.max_delay as nat, attempt as nat);
    if retry.jitter == Jitter::Off {
        delay as u128
    } else {
        ((delay * sample) / (u32::MAX as int)) as u128
    }
}

/// Two numbers added on a clock face of `n` hours.
pub open spec fn wrap(sum: int, n: nat) -> int {
    if sum < n {
        sum
    } else {
        sum - n
    }
}

/// The first queue with a ready job, looked for from the one whose turn it is and
/// after `tried` of them have been passed over.
pub open spec fn next_queue(queues: Seq<QueueView>, cursor: nat, tried: nat) -> Option<int>
    decreases queues.len() - tried,
{
    if tried >= queues.len() {
        None
    } else {
        let i = wrap((cursor + tried) as int, queues.len());
        if queues[i].ready.len() > 0 {
            Some(i)
        } else {
            next_queue(queues, cursor, tried + 1)
        }
    }
}

impl CoordinatorView {
    /// The queues have different names.
    pub open spec fn queues_distinct(self) -> bool {
        forall|i: int, j: int|
            0 <= i < j < self.queues.len() ==> (#[trigger] self.queues[i]).name != (
            #[trigger] self.queues[j]).name
    }

    /// Ready jobs are queued jobs of their queue, each once.
    pub open spec fn ready_is_queued(self) -> bool {
        &&& forall|i: int, k: int|
            0 <= i < self.queues.len() && 0 <= k < self.queues[i].ready.len() ==> {
                let id = #[trigger] self.queues[i].ready[k];
                &&& self.jobs.contains_key(id)
                &&& self.jobs[id].state == JobState::Queued
                &&& self.jobs[id].queue == self.queues[i].name
            }
        &&& forall|i: int|
            0 <= i < self.queues.len() ==> (#[trigger] self.queues[i]).ready.no_duplicates()
    }

    /// Queued jobs are ready in their queue.
    pub open spec fn queued_is_ready(self) -> bool {
        forall|id: u128| #[trigger]
            self.jobs.contains_key(id) ==> self.jobs[id].state == JobState::Queued
                ==> self.is_ready(id)
    }

    /// Whether a job is in the ready list of its queue.
    pub open spec fn is_ready(self, id: u128) -> bool {
        exists|i: int|
            0 <= i < self.queues.len() && (#[trigger] self.queues[i]).name == self.jobs[id].queue
                && self.queues[i].ready.contains(id)
    }

    /// Unfinished jobs belong to queues that exist.
    pub open spec fn live_have_queues(self) -> bool {
        forall|id: u128| #[trigger]
            self.jobs.contains_key(id) ==> !self.jobs[id].state.terminal() ==> has_queue(
                self.queues,
                self.jobs[id].queue,
            )
    }

    /// Leases are of running jobs, no two of one job or of one epoch, and all of
    /// epochs before the next.
    pub open spec fn leases_are_running(self) -> bool {
        &&& forall|k: int|
            0 <= k < self.leases.len() ==> {
                let lease = #[trigger] self.leases[k];
                &&& self.jobs.contains_key(lease.job)
                &&& self.jobs[lease.job].state == JobState::Running
                &&& lease.lease_id < self.next_lease_epoch
            }
        &&& forall|k: int, l: int|
            0 <= k < l < self.leases.len() ==> (#[trigger] self.leases[k]).job != (
            #[trigger] self.leases[l]).job && self.leases[k].lease_id < self.leases[l].lease_id
    }

    /// Running jobs have leases, unless they were given up.
    pub open spec fn running_is_leased(self) -> bool {
        !self.abandoned ==> forall|id: u128| #[trigger]
            self.jobs.contains_key(id) ==> self.jobs[id].state == JobState::Running ==> leased(
                self.leases,
                id,
            )
    }

    /// Retries to come are in order, no two of one job, and none of a job that
    /// is queued or running.
    pub open spec fn retries_in_order(self) -> bool {
        &&& forall|k: int, l: int|
            0 <= k < l < self.retries.len() ==> (#[trigger] self.retries[k]).available_at <= (
            #[trigger] self.retries[l]).available_at && self.retries[k].job != self.retries[l].job
        &&& forall|k: int|
            0 <= k < self.retries.len() ==> {
                let id = (#[trigger] self.retries[k]).job;
                &&& self.jobs.contains_key(id)
                &&& self.jobs[id].state != JobState::Queued
                &&& self.jobs[id].state != JobState::Running
            }
    }

    /// Jobs that wait for a retry have one to come.
    pub open spec fn waiting_is_scheduled(self) -> bool {
        forall|id: u128| #[trigger]
            self.jobs.contains_key(id) ==> self.jobs[id].state == JobState::RetryWaiting
                ==> scheduled(self.retries, id)
    }

    /// What always holds of the coordinator.
    pub open spec fn well_formed(self) -> bool {
        &&& self.jobs.dom().finite()
        &&& store::keyed(self.jobs)
        &&& self.queues_distinct()
        &&& self.ready_is_queued()
        &&& self.queued_is_ready()
        &&& self.live_have_queues()
        &&& self.leases_are_running()
        &&& self.running_is_leased()
        &&& self.retries_in_order()
        &&& self.waiting_is_scheduled()
        &&& self.queues.len() > 0 ==> self.cursor < self.queues.len()
    }

    /// Whether a lease is the one that a job now has.
    pub open spec fn holds_lease(self, id: u128, lease_id: u64) -> bool {
        leased(self.leases, id) && self.leases[lease_index(self.leases, id)].lease_id == lease_id
    }

    /// Whether a record is one that the coordinator may apply now: a submission
    /// of a new job to a queue that exists, the next lease for the worker that
    /// waits longest, an end or a retry under the lease that the job now has, or
    /// the cancellation of an unfinished job.
    pub open spec fn admits(self, record: RecordView) -> bool {
        match record {
            RecordView::JobSubmitted { id, queue, .. } => {
                &&& !self.jobs.contains_key(id)
                &&& has_queue(self.queues, queue)
            },
            RecordView::JobLeased { id, lease_id, .. } => {
                &&& self.parked.len() > 0
                &&& next_queue(self.queues, self.cursor, 0) is Some
                &&& id == self.queues[next_queue(self.queues, self.cursor, 0)->Some_0].ready[0]
                &&& lease_id == self.next_lease_epoch
                &&& lease_id < u64::MAX
            },
            RecordView::JobRetryScheduled { id, lease_id, .. } => self.holds_lease(id, lease_id),
            RecordView::JobCompleted { id, lease_id, .. } => self.holds_lease(id, lease_id),
            RecordView::JobDead { id, lease_id, .. } => self.holds_lease(id, lease_id),
            RecordView::JobCancelled { id, .. } => {
                &&& self.jobs.contains_key(id)
                &&& !self.jobs[id].state.terminal()
            },
        }
    }

    /// The leases without that of a job, where it has one.
    pub open spec fn leases_without(self, id: u128) -> Seq<ActiveLease> {
        if leased(self.leases, id) {
            self.leases.remove(lease_index(self.leases, id))
        } else {
            self.leases
        }
    }

    /// After a job has been submitted: it is the last of its queue.
    pub open spec fn after_submission(self, record: RecordView, queue: Seq<char>) -> CoordinatorView {
        CoordinatorView {
            jobs: store::applied(self.jobs, record),
            queues: adjust(
                self.queues,
                queue,
                |q: QueueView|
                    QueueView {
                        ready: q.ready.push(record.job()),
                        submitted: stats::bump(q.submitted),
                        ..q
                    },
            ),
            totals: GlobalStats {
                submitted: stats::bump(self.totals.submitted),
                ..self.totals
            },
            ..self
        }
    }

    /// After the worker that waits longest has got the first job of the queue
    /// whose turn it is.
    pub open spec fn after_lease(
        self,
        record: RecordView,
        lease_id: u64,
        now: u128,
    ) -> CoordinatorView {
        let i = next_queue(self.queues, self.cursor, 0)->Some_0;
        let deadline = now + self.visibility_timeout;
        CoordinatorView {
            jobs: store::applied(self.jobs, record),
            queues: self.queues.update(
                i,
                QueueView { ready: self.queues[i].ready.skip(1), ..self.queues[i] },
            ),
            leases: self.leases.push(
                ActiveLease {
                    job: record.job(),
                    lease_id,
                    deadline: if deadline > u128::MAX {
                        u128::MAX
                    } else {
                        deadline as u128
                    },
                },
            ),
            parked: self.parked.skip(1),
            cursor: wrap(i + 1, self.queues.len()) as nat,
            next_lease_epoch: (lease_id + 1) as u64,
            ..self
        }
    }

    /// After a retry has been scheduled.
    pub open spec fn after_failure(
        self,
        record: RecordView,
        available_at: u128,
    ) -> CoordinatorView {
        CoordinatorView {
            jobs: store::applied(self.jobs, record),
            leases: self.leases_without(record.job()),
            retries: with_retry(self.retries, RetryEntry { available_at, job: record.job() }),
            totals: GlobalStats { retried: stats::bump(self.totals.retried), ..self.totals },
            ..self
        }
    }

    /// After a job has completed.
    pub open spec fn after_completion(self, record: RecordView) -> CoordinatorView {
        CoordinatorView {
            jobs: store::applied(self.jobs, record),
            queues: adjust(
                self.queues,
                self.jobs[record.job()].queue,
                |q: QueueView| QueueView { completed: stats::bump(q.completed), ..q },
            ),
            leases: self.leases_without(record.job()),
            ..self
        }
    }

    /// After a job has died.
    pub open spec fn after_death(self, record: RecordView) -> CoordinatorView {
        CoordinatorView {
            jobs: store::applied(self.jobs, record),
            queues: adjust(
                self.queues,
                self.jobs[record.job()].queue,
                |q: QueueView| QueueView { dead: stats::bump(q.dead), ..q },
            ),
            leases: self.leases_without(record.job()),
            ..self
        }
    }

    /// After a job has been cancelled, wherever it was.
    pub open spec fn after_cancellation(self, record: RecordView) -> CoordinatorView {
        let id = record.job();
        CoordinatorView {
            jobs: store::applied(self.jobs, record),
            queues: adjust(
                self.queues,
                self.jobs[id].queue,
                |q: QueueView|
                    QueueView {
                        ready: if q.ready.contains(id) {
                            q.ready.remove(q.ready.index_of(id))
                        } else {
                            q.ready
                        },
                        cancelled: stats::bump(q.cancelled),
                        ..q
                    },
            ),
            leases: self.leases_without(id),
            ..self
        }
    }

    /// After a record has been applied.
    pub open spec fn after(self, record: RecordView, clock: Clock) -> CoordinatorView {
        match record {
            RecordView::JobSubmitted { queue, .. } => self.after_submission(record, queue),
            RecordView::JobLeased { lease_id, .. } => self.after_lease(
                record,
                lease_id,
                clock.now,
            ),
            RecordView::JobRetryScheduled { available_at, .. } => self.after_failure(
                record,
                monotonic(clock, available_at),
            ),
            RecordView::JobCompleted { .. } => self.after_completion(record),
            RecordView::JobDead { .. } => self.after_death(record),
            RecordView::JobCancelled { .. } => self.after_cancellation(record),
        }
    }

    /// After the first retry to come has been taken: its job is the last of its
    /// queue, if it still waited.
    pub open spec fn after_retry(self) -> CoordinatorView {
        let id = self.retries[0].job;
        if self.jobs[id].state == JobState::RetryWaiting {
            CoordinatorView {
                jobs: self.jobs.insert(id, self.jobs[id].in_state(JobState::Queued)),
                queues: adjust(
                    self.queues,
                    self.jobs[id].queue,
                    |q: QueueView| QueueView { ready: q.ready.push(id), ..q },
                ),
                retries: self.retries.skip(1),
                ..self
            }
        } else {
            CoordinatorView { retries: self.retries.skip(1), ..self }
        }
    }

    /// After every retry that is due has been taken.
    pub open spec fn after_due_retries(self, now: u128) -> CoordinatorView
        decreases self.retries.len(),
    {
        if self.retries.len() == 0 || self.retries[0].available_at > now {
            self
        } else {
            self.after_retry().after_due_retries(now)
        }
    }

    /// The record that ends an attempt that failed: another try after a delay if
    /// one is left, else the end.
    pub open spec fn failure(self, id: u128, lease_id: u64, wall: i64, sample: u32) -> RecordView {
        let job = self.jobs[id];
        if job.attempts >= job.max_attempts {
            RecordView::JobDead { id, lease_id, dead_at: wall }
        } else {
            RecordView::JobRetryScheduled {
                id,
                lease_id,
                attempt: job.attempts,
                available_at: wall_after(wall, retry_delay(self.retry, job.attempts, sample)),
            }
        }
    }

    /// The record that an outcome calls for.
    pub open spec fn verdict(
        self,
        id: u128,
        lease_id: u64,
        outcome: WorkerOutcome,
        wall: i64,
        sample: u32,
    ) -> RecordView {
        match outcome {
            WorkerOutcome::Success => RecordView::JobCompleted { id, lease_id, completed_at: wall },
            WorkerOutcome::Fatal => RecordView::JobDead { id, lease_id, dead_at: wall },
            WorkerOutcome::Retryable => self.failure(id, lease_id, wall, sample),
            WorkerOutcome::Panic => self.failure(id, lease_id, wall, sample),
        }
    }

    /// The first lease that has run out.
    pub open spec fn expired(self, now: u128, from: int) -> Option<int>
        decreases self.leases.len() - from,
    {
        if from < 0 || from >= self.leases.len() {
            None
        } else if self.leases[from].deadline <= now {
            Some(from)
        } else {
            self.expired(now, from + 1)
        }
    }
}

} // verus!
