//! The coordinator's state and the steps it takes.

use crate::config::{QueueConfig, RetryConfig, RuntimeConfig};
use crate::coordinator::figures;
use crate::coordinator::laws;
use crate::coordinator::model;
use crate::coordinator::model::{
    ActiveLease, Clock, CoordinatorView, GlobalStats, QueueView, RetryEntry, WorkerOutcome,
    MILLISECOND,
};
use crate::coordinator::restore;
use crate::error::{Error, Fault, Result};
use crate::handler::{JobContext, LeasedJob};
use crate::recovery;
use crate::recovery::{recover, RecoveredState};
use crate::stats;
use crate::stats::{QueueStats, StatsSnapshot};
use crate::store;
use crate::store::{MemoryStore, StorageConfig};
use crate::types;
use crate::types::{
    JobId, JobRecord, JobSpec, JobState, JobView, LeaseId, QueueName, UnixMillis,
    MAX_PAYLOAD_SIZE,
};
use crate::wal::error::{WalError, WalFault};
use crate::wal::record::{RecordView, WalRecord};
use crate::wal::scanner;
use std::collections::{HashSet, VecDeque};
use vstd::prelude::*;

verus! {

/// One queue.
pub struct QueueState {
    name: QueueName,
    ready: VecDeque<u128>,
    submitted: u64,
    completed: u64,
    dead: u64,
    cancelled: u64,
}

impl View for QueueState {
    type V = QueueView;

    closed spec fn view(&self) -> QueueView {
        QueueView {
            name: self.name@,
            ready: self.ready@,
            submitted: self.submitted,
            completed: self.completed,
            dead: self.dead,
            cancelled: self.cancelled,
        }
    }
}

/// Owns all that changes while the queue runs: jobs, ready lists, leases and
/// retries to come. It decides; the program around it persists each record
/// before it has it applied.
pub struct Coordinator {
    store: MemoryStore,
    queues: Vec<QueueState>,
    leases: Vec<ActiveLease>,
    retries: VecDeque<RetryEntry>,
    parked: VecDeque<u64>,
    cursor: usize,
    next_lease_epoch: u64,
    totals: GlobalStats,
    shutting_down: bool,
    drain_deadline: u128,
    abandoned: bool,
    retry: RetryConfig,
    visibility_timeout: u128,
    shutdown_timeout: u128,
}

/// Queues as they are in the model.
pub open spec fn queue_views(queues: Seq<QueueState>) -> Seq<QueueView> {
    queues.map_values(|q: QueueState| q@)
}

impl View for Coordinator {
    type V = CoordinatorView;

    closed spec fn view(&self) -> CoordinatorView {
        CoordinatorView {
            jobs: self.store@,
            queues: queue_views(self.queues@),
            leases: self.leases@,
            retries: self.retries@,
            parked: self.parked@,
            cursor: self.cursor as nat,
            next_lease_epoch: self.next_lease_epoch,
            totals: self.totals,
            shutting_down: self.shutting_down,
            drain_deadline: self.drain_deadline,
            abandoned: self.abandoned,
            retry: self.retry,
            visibility_timeout: self.visibility_timeout,
            shutdown_timeout: self.shutdown_timeout,
        }
    }
}

/// What applying a record brought about.
#[derive(Debug, PartialEq, Eq)]
pub struct Applied {
    /// The job as it is now.
    pub job: JobRecord,
    /// Whether the job has ended, so that its place in the queue is free.
    pub released: bool,
    /// The lease that the job lost, whose worker may stop.
    pub revoked: Option<LeaseId>,
}

/// The moment on the wall clock that lies a delay ahead.
pub fn wall_after(wall: UnixMillis, delay: u128) -> (at: UnixMillis)
    ensures
        at.0 == model::wall_after(wall.0, delay),
{
    let whole: u128 = delay / MILLISECOND;
    let millis: u128 = if delay % MILLISECOND > 0 {
        whole + 1
    } else {
        whole
    };
    assert(millis == (delay + 999_999) / 1_000_000);
    let room: i128 = i64::MAX as i128 - wall.0 as i128;
    if millis > room as u128 {
        UnixMillis(i64::MAX)
    } else {
        UnixMillis((wall.0 as i128 + millis as i128) as i64)
    }
}

/// The moment on the monotonic clock that a moment on the wall clock stands for.
pub fn monotonic(clock: Clock, at: UnixMillis) -> (moment: u128)
    ensures
        moment == model::monotonic(clock, at.0),
{
    let ahead: i128 = if at.0 > clock.wall.0 {
        at.0 as i128 - clock.wall.0 as i128
    } else {
        0
    };
    clock.now.saturating_add(ahead as u128 * MILLISECOND)
}

impl Coordinator {
    /// The state before anything has happened.
    pub open spec fn initial(config: RuntimeConfig) -> CoordinatorView {
        CoordinatorView {
            jobs: Map::empty(),
            queues: Seq::new(
                config.queues@.len(),
                |i: int|
                    QueueView {
                        name: config.queues@[i].name@,
                        ready: Seq::empty(),
                        submitted: 0,
                        completed: 0,
                        dead: 0,
                        cancelled: 0,
                    },
            ),
            leases: Seq::empty(),
            retries: Seq::empty(),
            parked: Seq::empty(),
            cursor: 0,
            next_lease_epoch: 1,
            totals: GlobalStats {
                submitted: 0,
                retried: 0,
                stale_outcomes: 0,
            },
            shutting_down: false,
            drain_deadline: 0,
            abandoned: false,
            retry: config.retry,
            visibility_timeout: config.visibility_timeout,
            shutdown_timeout: config.shutdown_timeout,
        }
    }

    /// A coordinator of the configured queues, without jobs.
    pub fn new(config: &RuntimeConfig) -> (coordinator: Self)
        requires
            config.valid(),
        ensures
            coordinator@ == Self::initial(*config),
            coordinator@.well_formed(),
    {
        let mut queues: Vec<QueueState> = Vec::new();
        let total: usize = config.queues.len();
        let mut i: usize = 0;
        while i < total
            invariant
                i <= total == config.queues@.len(),
                queues@.len() == i,
                forall|k: int|
                    0 <= k < i ==> (#[trigger] queues@[k])@ == Self::initial(*config).queues[k],
            decreases total - i,
        {
            queues.push(
                QueueState {
                    name: config.queues[i].name.clone(),
                    ready: VecDeque::new(),
                    submitted: 0,
                    completed: 0,
                    dead: 0,
                    cancelled: 0,
                },
            );
            i = i + 1;
        }
        let coordinator = Coordinator {
            store: MemoryStore::new(),
            queues,
            leases: Vec::new(),
            retries: VecDeque::new(),
            parked: VecDeque::new(),
            cursor: 0,
            next_lease_epoch: 1,
            totals: GlobalStats {
                submitted: 0,
                retried: 0,
                stale_outcomes: 0,
            },
            shutting_down: false,
            drain_deadline: 0,
            abandoned: false,
            retry: config.retry,
            visibility_timeout: config.visibility_timeout,
            shutdown_timeout: config.shutdown_timeout,
        };
        proof {
            assert(coordinator@.queues =~= Self::initial(*config).queues);
            assert(coordinator@ =~= Self::initial(*config));
            figures::lemma_new_is_in_order(*config);
        }
        coordinator
    }

    /// Where the queue of the given name stands.
    fn queue_position(&self, name: &QueueName) -> (position: Option<usize>)
        ensures
            match position {
                Some(i) => i < self@.queues.len() && self@.queues[i as int].name == name@,
                None => !model::has_queue(self@.queues, name@),
            },
    {
        let total: usize = self.queues.len();
        let mut i: usize = 0;
        while i < total
            invariant
                i <= total == self.queues@.len(),
                forall|k: int| 0 <= k < i ==> (#[trigger] self@.queues[k]).name != name@,
            decreases total - i,
        {
            assert(self@.queues[i as int] == self.queues@[i as int]@);
            if self.queues[i].name.same_as(name) {
                return Some(i);
            }
            i = i + 1;
        }
        None
    }

    /// Where the lease of a job stands.
    fn lease_position(&self, id: u128) -> (position: Option<usize>)
        ensures
            match position {
                Some(k) => k < self@.leases.len() && self@.leases[k as int].job == id,
                None => !model::leased(self@.leases, id),
            },
    {
        let total: usize = self.leases.len();
        let mut k: usize = 0;
        while k < total
            invariant
                k <= total == self.leases@.len(),
                forall|l: int| 0 <= l < k ==> (#[trigger] self@.leases[l]).job != id,
            decreases total - k,
        {
            if self.leases[k].job == id {
                return Some(k);
            }
            k = k + 1;
        }
        None
    }

    /// What a submission is refused for, if for anything.
    pub open spec fn submit_fault(
        view: CoordinatorView,
        queue: Seq<char>,
        payload_len: nat,
    ) -> Option<Fault> {
        if view.shutting_down {
            Some(Fault::ShuttingDown)
        } else if !model::has_queue(view.queues, queue) {
            Some(Fault::QueueNotFound(queue))
        } else if payload_len > MAX_PAYLOAD_SIZE {
            Some(Fault::PayloadTooLarge(payload_len, MAX_PAYLOAD_SIZE as nat))
        } else {
            None
        }
    }

    /// The record of a submission under a new identifier. Nothing changes before
    /// it has been persisted and applied.
    pub fn do_submit(
        &self,
        id: JobId,
        queue: QueueName,
        spec: JobSpec,
        created_at: UnixMillis,
    ) -> (outcome: Result<WalRecord>)
        ensures
            match Self::submit_fault(self@, queue@, spec.payload@.len()) {
                Some(fault) => outcome matches Err(error) && error@ == fault,
                None => {
                    &&& outcome matches Ok(record)
                    &&& record@ == (RecordView::JobSubmitted {
                        id: id.0,
                        queue: queue@,
                        payload: spec.payload@,
                        max_attempts: spec.max_attempts,
                        created_at: created_at.0,
                    })
                    &&& !self@.jobs.contains_key(id.0) ==> self@.admits(record@)
                },
            },
    {
        if self.shutting_down {
            return Err(Error::ShuttingDown);
        }
        if self.queue_position(&queue).is_none() {
            return Err(Error::QueueNotFound(queue.as_str().to_owned()));
        }
        if spec.payload.len() > MAX_PAYLOAD_SIZE {
            return Err(Error::PayloadTooLarge(spec.payload.len(), MAX_PAYLOAD_SIZE));
        }
        Ok(WalRecord::JobSubmitted { id, queue, spec, created_at })
    }

    /// The job of the given identifier.
    pub fn do_status(&self, id: JobId) -> (outcome: Result<JobRecord>)
        ensures
            if self@.jobs.contains_key(id.0) {
                outcome matches Ok(job) && job@ == self@.jobs[id.0]
            } else {
                outcome matches Err(error) && error@ == Fault::JobNotFound(
                    types::hyphenated(id.0),
                )
            },
    {
        match self.store.get(id) {
            Some(job) => Ok(job.clone()),
            None => Err(Error::JobNotFound(id.to_text())),
        }
    }

    /// What a cancellation is refused for, if for anything: there is no such job,
    /// or it has ended.
    pub open spec fn cancel_fault(view: CoordinatorView, id: u128) -> Option<Fault> {
        if !view.jobs.contains_key(id) {
            Some(Fault::JobNotFound(types::hyphenated(id)))
        } else if view.jobs[id].state.terminal() {
            Some(
                Fault::InvalidTransition { from: view.jobs[id].state, to: JobState::Cancelled },
            )
        } else {
            None
        }
    }

    /// The record of a cancellation. Nothing changes before it has been persisted
    /// and applied.
    pub fn do_cancel(&self, id: JobId, cancelled_at: UnixMillis) -> (outcome: Result<WalRecord>)
        ensures
            match Self::cancel_fault(self@, id.0) {
                Some(fault) => outcome matches Err(error) && error@ == fault,
                None => {
                    &&& outcome matches Ok(record)
                    &&& record@ == (RecordView::JobCancelled {
                        id: id.0,
                        cancelled_at: cancelled_at.0,
                    })
                    &&& self@.admits(record@)
                },
            },
    {
        match self.store.get(id) {
            None => Err(Error::JobNotFound(id.to_text())),
            Some(job) => if !MemoryStore::is_valid_transition(job.state, JobState::Cancelled) {
                Err(Error::InvalidTransition { from: job.state, to: JobState::Cancelled })
            } else {
                Ok(WalRecord::JobCancelled { id, cancelled_at })
            },
        }
    }

    /// The queue whose first job is next to run: the first with a ready job,
    /// from the one whose turn it is.
    fn next_ready(&self) -> (position: Option<usize>)
        requires
            self@.queues.len() > 0 ==> self@.cursor < self@.queues.len(),
        ensures
            match position {
                Some(i) => model::next_queue(self@.queues, self@.cursor, 0) == Some(i as int),
                None => model::next_queue(self@.queues, self@.cursor, 0) is None,
            },
    {
        let total: usize = self.queues.len();
        let mut tried: usize = 0;
        let mut i: usize = self.cursor;
        while tried < total
            invariant
                tried <= total == self.queues@.len(),
                total > 0 ==> self@.cursor < total,
                i == model::wrap(self@.cursor + tried, total as nat) || tried == total,
                model::next_queue(self@.queues, self@.cursor, 0) == model::next_queue(
                    self@.queues,
                    self@.cursor,
                    tried as nat,
                ),
            decreases total - tried,
        {
            assert(self@.queues[i as int] == self.queues@[i as int]@);
            if self.queues[i].ready.len() > 0 {
                return Some(i);
            }
            tried = tried + 1;
            i = if i + 1 < total {
                i + 1
            } else {
                0
            };
        }
        None
    }

    /// Whether a worker waits and a job is ready for it.
    pub open spec fn can_dispatch(view: CoordinatorView) -> bool {
        &&& !view.shutting_down
        &&& view.parked.len() > 0
        &&& model::next_queue(view.queues, view.cursor, 0) is Some
    }

    /// The record of the next lease.
    pub open spec fn next_lease(view: CoordinatorView, leased_at: i64) -> RecordView {
        let id = view.queues[model::next_queue(view.queues, view.cursor, 0)->Some_0].ready[0];
        let attempts = view.jobs[id].attempts;
        RecordView::JobLeased {
            id,
            lease_id: view.next_lease_epoch,
            attempt: if attempts == u32::MAX {
                u32::MAX
            } else {
                (attempts + 1) as u32
            },
            leased_at,
        }
    }

    /// The worker that waits longest and the record of the lease that it is to
    /// get, where a job is ready. Nothing changes before the record has been
    /// persisted and applied.
    pub fn do_fetch_work(&self, leased_at: UnixMillis) -> (outcome: Result<Option<(u64, WalRecord)>>)
        requires
            self@.well_formed(),
        ensures
            if !Self::can_dispatch(self@) {
                outcome matches Ok(None)
            } else if self@.next_lease_epoch == u64::MAX {
                outcome matches Err(error) && error@ == Fault::Storage(
                    WalFault::LeaseEpochExhausted,
                )
            } else {
                &&& outcome matches Ok(Some((worker, record)))
                &&& worker == self@.parked[0]
                &&& record@ == Self::next_lease(self@, leased_at.0)
                &&& self@.admits(record@)
            },
    {
        if self.shutting_down || self.parked.len() == 0 {
            return Ok(None);
        }
        let i: usize = match self.next_ready() {
            None => return Ok(None),
            Some(i) => i,
        };
        if self.next_lease_epoch == u64::MAX {
            return Err(Error::Storage(WalError::LeaseEpochExhausted));
        }
        proof {
            laws::lemma_next_queue(self@.queues, self@.cursor, 0);
            assert(self@.queues[i as int] == self.queues@[i as int]@);
        }
        let id = JobId(self.queues[i].ready[0]);
        assert(self@.queues[i as int].ready[0] == id.0);
        match self.store.get(id) {
            None => Ok(None),
            Some(job) => {
                let record = WalRecord::JobLeased {
                    id,
                    lease_id: LeaseId(self.next_lease_epoch),
                    attempt: job.attempts.saturating_add(1),
                    leased_at,
                };
                Ok(Some((self.parked[0], record)))
            },
        }
    }

    /// The record that ends a failed attempt.
    fn failure_record(&self, id: JobId, lease_id: LeaseId, wall: UnixMillis, sample: u32) -> (record:
        Option<WalRecord>)
        ensures
            match record {
                Some(r) => self@.jobs.contains_key(id.0) && r@ == self@.failure(
                    id.0,
                    lease_id.0,
                    wall.0,
                    sample,
                ),
                None => !self@.jobs.contains_key(id.0),
            },
    {
        match self.store.get(id) {
            None => None,
            Some(job) => if job.attempts >= job.spec.max_attempts {
                Some(WalRecord::JobDead { id, lease_id, dead_at: wall })
            } else {
                let delay: u128 = self.retry.delay_for_attempt(job.attempts);
                let spread: u128 = self.retry.apply_jitter(delay, sample, u32::MAX);
                Some(
                    WalRecord::JobRetryScheduled {
                        id,
                        lease_id,
                        attempt: job.attempts,
                        available_at: wall_after(wall, spread),
                    },
                )
            },
        }
    }

    /// The record that an outcome calls for, or `None` where it comes from a
    /// lease that the job no longer has: that outcome is stale, and counted as
    /// such. Nothing else changes before the record has been persisted and
    /// applied. `sample` out of `u32::MAX` is the part of a delay that jitter
    /// leaves.
    pub fn do_worker_outcome(
        &mut self,
        id: JobId,
        lease_id: LeaseId,
        outcome: WorkerOutcome,
        wall: UnixMillis,
        sample: u32,
    ) -> (record: Option<WalRecord>)
        requires
            old(self)@.well_formed(),
        ensures
            if old(self)@.holds_lease(id.0, lease_id.0) {
                &&& record matches Some(r)
                &&& r@ == old(self)@.verdict(id.0, lease_id.0, outcome, wall.0, sample)
                &&& old(self)@.admits(r@)
                &&& final(self)@ == old(self)@
            } else {
                &&& record is None
                &&& final(self)@ == (CoordinatorView {
                    totals: GlobalStats {
                        stale_outcomes: stats::bump(old(self)@.totals.stale_outcomes),
                        ..old(self)@.totals
                    },
                    ..old(self)@
                })
            },
            final(self)@.well_formed(),
    {
        let ghost before = self@;
        let current: bool = match self.lease_position(id.0) {
            None => false,
            Some(k) => {
                proof {
                    laws::lemma_lease_found(self@, id.0, k as int);
                }
                self.leases[k].lease_id == lease_id.0
            },
        };
        if !current {
            self.totals.stale_outcomes = self.totals.stale_outcomes.saturating_add(1);
            proof {
                laws::lemma_same_work(before, self@);
            }
            return None;
        }
        match outcome {
            WorkerOutcome::Success => Some(
                WalRecord::JobCompleted { id, lease_id, completed_at: wall },
            ),
            WorkerOutcome::Fatal => Some(WalRecord::JobDead { id, lease_id, dead_at: wall }),
            WorkerOutcome::Retryable => self.failure_record(id, lease_id, wall, sample),
            WorkerOutcome::Panic => self.failure_record(id, lease_id, wall, sample),
        }
    }

    /// The record that ends the first lease that has run out, as a failed attempt
    /// that may be tried again; `None` if none has. Nothing changes before it has
    /// been persisted and applied.
    pub fn check_lease_timeouts(&self, clock: Clock, sample: u32) -> (record: Option<WalRecord>)
        requires
            self@.well_formed(),
        ensures
            match self@.expired(clock.now, 0) {
                None => record is None,
                Some(k) => {
                    let lease = self@.leases[k];
                    &&& record matches Some(r)
                    &&& r@ == self@.failure(lease.job, lease.lease_id, clock.wall.0, sample)
                    &&& self@.admits(r@)
                },
            },
    {
        let total: usize = self.leases.len();
        let mut k: usize = 0;
        while k < total
            invariant
                k <= total == self@.leases.len(),
                self@.leases == self.leases@,
                self@.expired(clock.now, 0) == self@.expired(clock.now, k as int),
                self@.well_formed(),
            decreases total - k,
        {
            if self.leases[k].deadline <= clock.now {
                let lease = self.leases[k];
                proof {
                    laws::lemma_lease_found(self@, lease.job, k as int);
                }
                return self.failure_record(
                    JobId(lease.job),
                    LeaseId(lease.lease_id),
                    clock.wall,
                    sample,
                );
            }
            k = k + 1;
        }
        None
    }

    /// Whether a moment is the first at which a retry is due or a lease runs out;
    /// there is none where there is neither.
    pub open spec fn wakes(view: CoordinatorView, deadline: Option<u128>) -> bool {
        match deadline {
            None => view.retries.len() == 0 && view.leases.len() == 0,
            Some(at) => {
                &&& forall|k: int|
                    0 <= k < view.retries.len() ==> at <= (#[trigger] view.retries[k]).available_at
                &&& forall|k: int|
                    0 <= k < view.leases.len() ==> at <= (#[trigger] view.leases[k]).deadline
                &&& (exists|k: int|
                    0 <= k < view.retries.len() && at == (
                    #[trigger] view.retries[k]).available_at) || (exists|k: int|
                    0 <= k < view.leases.len() && at == (#[trigger] view.leases[k]).deadline)
            },
        }
    }

    /// The next moment at which something happens by itself: the first retry or
    /// the end of a lease.
    pub fn next_retry_deadline(&self) -> (deadline: Option<u128>)
        requires
            self@.well_formed(),
        ensures
            Self::wakes(self@, deadline),
            match deadline {
                None => self@.retries.len() == 0 && self@.leases.len() == 0,
                Some(at) => {
                    &&& forall|k: int|
                        0 <= k < self@.retries.len() ==> at <= (
                        #[trigger] self@.retries[k]).available_at
                    &&& forall|k: int|
                        0 <= k < self@.leases.len() ==> at <= (#[trigger] self@.leases[k]).deadline
                    &&& (exists|k: int|
                        0 <= k < self@.retries.len() && at == (
                        #[trigger] self@.retries[k]).available_at) || (exists|k: int|
                        0 <= k < self@.leases.len() && at == (#[trigger] self@.leases[k]).deadline)
                },
            },
    {
        let ghost view = self@;
        let mut deadline: Option<u128> = None;
        if self.retries.len() > 0 {
            let first = self.retries[0];
            deadline = Some(first.available_at);
            assert(view.retries[0].available_at == first.available_at);
        }
        let total: usize = self.leases.len();
        let mut k: usize = 0;
        while k < total
            invariant
                k <= total == view.leases.len(),
                view.leases == self.leases@,
                view.retries_in_order(),
                match deadline {
                    None => view.retries.len() == 0 && k == 0,
                    Some(at) => {
                        &&& view.retries.len() > 0 ==> at <= view.retries[0].available_at
                        &&& forall|l: int|
                            0 <= l < k ==> at <= (#[trigger] view.leases[l]).deadline
                        &&& (exists|l: int|
                            0 <= l < view.retries.len() && at == (
                            #[trigger] view.retries[l]).available_at) || (exists|l: int|
                            0 <= l < k && at == (#[trigger] view.leases[l]).deadline)
                    },
                },
            decreases total - k,
        {
            let end: u128 = self.leases[k].deadline;
            assert(view.leases[k as int].deadline == end);
            deadline = match deadline {
                None => Some(end),
                Some(at) => if end < at {
                    Some(end)
                } else {
                    Some(at)
                },
            };
            k = k + 1;
        }
        proof {
            if let Some(at) = deadline {
                assert forall|l: int| 0 <= l < view.retries.len() implies at <= (
                #[trigger] view.retries[l]).available_at by {
                    if l > 0 {
                        assert(view.retries[0].available_at <= view.retries[l].available_at);
                    }
                }
            }
        }
        deadline
    }
}

impl Coordinator {
    /// Applies a record that has been persisted.
    pub fn apply(&mut self, record: &WalRecord, clock: Clock) -> (applied: Applied)
        requires
            old(self)@.well_formed(),
            old(self)@.admits(record@),
        ensures
            final(self)@ == old(self)@.after(record@, clock),
            final(self)@.well_formed(),
            applied.job@ == final(self)@.jobs[record@.job()],
            applied.released == applied.job@.state.terminal(),
            applied.released == Self::gives_back_place(record@),
            applied.revoked == (match Self::takes_lease(old(self)@, record@) {
                Some(lease_id) => Some(LeaseId(lease_id)),
                None => None,
            }),
            applied.revoked == (if record@ is JobSubmitted || record@ is JobLeased || !model::leased(
                old(self)@.leases,
                record@.job(),
            ) {
                None
            } else {
                Some(
                    LeaseId(
                        old(self)@.leases[model::lease_index(
                            old(self)@.leases,
                            record@.job(),
                        )].lease_id,
                    ),
                )
            }),
    {
        let ghost before = self@;
        let revoked: Option<LeaseId> = match record {
            WalRecord::JobSubmitted { id, queue, .. } => {
                self.apply_submission(*id, queue, record);
                None
            },
            WalRecord::JobLeased { id, lease_id, .. } => {
                self.apply_lease(*id, *lease_id, record, clock);
                None
            },
            WalRecord::JobRetryScheduled { id, available_at, .. } => {
                self.apply_failure(*id, *available_at, record, clock)
            },
            WalRecord::JobCompleted { id, .. } => self.apply_completion(*id, record),
            WalRecord::JobDead { id, .. } => self.apply_death(*id, record),
            WalRecord::JobCancelled { id, .. } => self.apply_cancellation(*id, record),
        };
        proof {
            match record@ {
                RecordView::JobSubmitted { .. } => {
                    laws::lemma_submission_keeps_order(before, record@, clock);
                },
                RecordView::JobLeased { .. } => {
                    laws::lemma_lease_keeps_order(before, record@, clock);
                },
                RecordView::JobRetryScheduled { .. } => {
                    laws::lemma_failure_keeps_order(before, record@, clock);
                },
                RecordView::JobCompleted { .. } => {
                    laws::lemma_end_keeps_order(before, record@, clock);
                },
                RecordView::JobDead { .. } => {
                    laws::lemma_end_keeps_order(before, record@, clock);
                },
                RecordView::JobCancelled { .. } => {
                    laws::lemma_cancellation_keeps_order(before, record@, clock);
                },
            }
        }
        let id = record.job_id();
        let job = match self.store.get(id) {
            Some(job) => job.clone(),
            None => vstd::pervasive::unreached(),
        };
        let released: bool = job.state.is_terminal();
        Applied { job, released, revoked }
    }

    /// Whether a record gives the place of its job back: one that ends it does.
    pub open spec fn gives_back_place(record: RecordView) -> bool {
        record is JobCompleted || record is JobDead || record is JobCancelled
    }

    /// The lease that a record takes from its job, where it takes one.
    pub open spec fn takes_lease(view: CoordinatorView, record: RecordView) -> Option<u64> {
        if record is JobSubmitted || record is JobLeased || !model::leased(
            view.leases,
            record.job(),
        ) {
            None
        } else {
            Some(view.leases[model::lease_index(view.leases, record.job())].lease_id)
        }
    }

    /// Puts a new job at the end of its queue.
    fn apply_submission(&mut self, id: JobId, queue: &QueueName, record: &WalRecord)
        requires
            old(self)@.well_formed(),
            old(self)@.admits(record@),
            record@ is JobSubmitted,
            record@->JobSubmitted_queue == queue@,
            record@.job() == id.0,
        ensures
            final(self)@ == old(self)@.after_submission(record@, queue@),
    {
        let ghost before = self@;
        let _ = self.store.apply_record(record);
        if let Some(i) = self.queue_position(queue) {
            let ghost states = self.queues@;
            let q = &mut self.queues[i];
            q.ready.push_back(id.0);
            q.submitted = q.submitted.saturating_add(1);
            proof {
                lemma_adjusted(
                    before,
                    states,
                    self.queues@,
                    i as int,
                    |q: QueueView|
                        QueueView {
                            ready: q.ready.push(id.0),
                            submitted: stats::bump(q.submitted),
                            ..q
                        },
                );
            }
        }
        self.totals.submitted = self.totals.submitted.saturating_add(1);
        assert(self@ =~= before.after_submission(record@, queue@));
    }

    /// Gives the first job of the queue whose turn it is to the worker that waits
    /// longest.
    fn apply_lease(&mut self, id: JobId, lease_id: LeaseId, record: &WalRecord, clock: Clock)
        requires
            old(self)@.well_formed(),
            old(self)@.admits(record@),
            record@ is JobLeased,
            record@->JobLeased_lease_id == lease_id.0,
            record@.job() == id.0,
        ensures
            final(self)@ == old(self)@.after_lease(record@, lease_id.0, clock.now),
    {
        let ghost before = self@;
        proof {
            laws::lemma_lease_keeps_order(before, record@, clock);
        }
        if let Some(i) = self.next_ready() {
            let total: usize = self.queues.len();
            let ghost states = self.queues@;
            let q = &mut self.queues[i];
            let _ = q.ready.pop_front();
            self.cursor = if i + 1 < total {
                i + 1
            } else {
                0
            };
            proof {
                let front = before.queues[i as int];
                assert(queue_views(self.queues@) =~= before.queues.update(
                    i as int,
                    QueueView { ready: front.ready.skip(1), ..front },
                )) by {
                    assert(front == states[i as int]@);
                    assert(front.ready.subrange(1, front.ready.len() as int)
                        =~= front.ready.skip(1));
                    assert forall|k: int| 0 <= k < states.len() implies queue_views(
                        self.queues@,
                    )[k] == before.queues.update(
                        i as int,
                        QueueView { ready: front.ready.skip(1), ..front },
                    )[k] by {
                        assert(before.queues[k] == states[k]@);
                    }
                }
            }
        }
        let _ = self.store.apply_record(record);
        self.leases.push(
            ActiveLease {
                job: id.0,
                lease_id: lease_id.0,
                deadline: clock.now.saturating_add(self.visibility_timeout),
            },
        );
        let _ = self.parked.pop_front();
        assert(before.parked.subrange(1, before.parked.len() as int) =~= before.parked.skip(1));
        self.next_lease_epoch = lease_id.0 + 1;
        assert(self@ =~= before.after_lease(record@, lease_id.0, clock.now));
    }

    /// Takes the lease of a job away, where it has one.
    fn take_lease(&mut self, id: JobId) -> (revoked: Option<LeaseId>)
        requires
            old(self)@.leases_are_running(),
        ensures
            final(self)@ == (CoordinatorView {
                leases: old(self)@.leases_without(id.0),
                ..old(self)@
            }),
            revoked == (if model::leased(old(self)@.leases, id.0) {
                Some(
                    LeaseId(
                        old(self)@.leases[model::lease_index(old(self)@.leases, id.0)].lease_id,
                    ),
                )
            } else {
                None
            }),
    {
        let ghost before = self@;
        match self.lease_position(id.0) {
            None => None,
            Some(k) => {
                proof {
                    laws::lemma_lease_found(before, id.0, k as int);
                }
                let lease = self.leases.remove(k);
                Some(LeaseId(lease.lease_id))
            },
        }
    }

    /// Schedules the retry of a job whose attempt failed.
    fn apply_failure(
        &mut self,
        id: JobId,
        available_at: UnixMillis,
        record: &WalRecord,
        clock: Clock,
    ) -> (revoked: Option<LeaseId>)
        requires
            old(self)@.well_formed(),
            old(self)@.admits(record@),
            record@ is JobRetryScheduled,
            record@->JobRetryScheduled_available_at == available_at.0,
            record@.job() == id.0,
        ensures
            final(self)@ == old(self)@.after_failure(
                record@,
                model::monotonic(clock, available_at.0),
            ),
            revoked == (if model::leased(old(self)@.leases, id.0) {
                Some(
                    LeaseId(
                        old(self)@.leases[model::lease_index(old(self)@.leases, id.0)].lease_id,
                    ),
                )
            } else {
                None
            }),
    {
        let ghost before = self@;
        proof {
            laws::lemma_failure_keeps_order(before, record@, clock);
        }
        let revoked = self.take_lease(id);
        let _ = self.store.apply_record(record);
        let at: u128 = monotonic(clock, available_at);
        insert_retry(&mut self.retries, RetryEntry { available_at: at, job: id.0 });
        self.totals.retried = self.totals.retried.saturating_add(1);
        assert(self@ =~= before.after_failure(record@, at));
        revoked
    }

    /// Ends a job that succeeded.
    fn apply_completion(&mut self, id: JobId, record: &WalRecord) -> (revoked: Option<LeaseId>)
        requires
            old(self)@.well_formed(),
            old(self)@.admits(record@),
            record@ is JobCompleted,
            record@.job() == id.0,
        ensures
            final(self)@ == old(self)@.after_completion(record@),
            revoked == (if model::leased(old(self)@.leases, id.0) {
                Some(
                    LeaseId(
                        old(self)@.leases[model::lease_index(old(self)@.leases, id.0)].lease_id,
                    ),
                )
            } else {
                None
            }),
    {
        let ghost before = self@;
        proof {
            laws::lemma_admitted_end(before, record@);
        }
        let position = self.position_of_job(id);
        let revoked = self.take_lease(id);
        let _ = self.store.apply_record(record);
        if let Some(i) = position {
            let ghost states = self.queues@;
            let q = &mut self.queues[i];
            q.completed = q.completed.saturating_add(1);
            proof {
                lemma_adjusted(
                    before,
                    states,
                    self.queues@,
                    i as int,
                    |q: QueueView| QueueView { completed: stats::bump(q.completed), ..q },
                );
            }
        }
        assert(self@ =~= before.after_completion(record@));
        revoked
    }

    /// Ends a job that failed for good.
    fn apply_death(&mut self, id: JobId, record: &WalRecord) -> (revoked: Option<LeaseId>)
        requires
            old(self)@.well_formed(),
            old(self)@.admits(record@),
            record@ is JobDead,
            record@.job() == id.0,
        ensures
            final(self)@ == old(self)@.after_death(record@),
            revoked == (if model::leased(old(self)@.leases, id.0) {
                Some(
                    LeaseId(
                        old(self)@.leases[model::lease_index(old(self)@.leases, id.0)].lease_id,
                    ),
                )
            } else {
                None
            }),
    {
        let ghost before = self@;
        proof {
            laws::lemma_admitted_end(before, record@);
        }
        let position = self.position_of_job(id);
        let revoked = self.take_lease(id);
        let _ = self.store.apply_record(record);
        if let Some(i) = position {
            let ghost states = self.queues@;
            let q = &mut self.queues[i];
            q.dead = q.dead.saturating_add(1);
            proof {
                lemma_adjusted(
                    before,
                    states,
                    self.queues@,
                    i as int,
                    |q: QueueView| QueueView { dead: stats::bump(q.dead), ..q },
                );
            }
        }
        assert(self@ =~= before.after_death(record@));
        revoked
    }

    /// Ends a job that was cancelled, wherever it is.
    fn apply_cancellation(&mut self, id: JobId, record: &WalRecord) -> (revoked: Option<LeaseId>)
        requires
            old(self)@.well_formed(),
            old(self)@.admits(record@),
            record@ is JobCancelled,
            record@.job() == id.0,
        ensures
            final(self)@ == old(self)@.after_cancellation(record@),
            revoked == (if model::leased(old(self)@.leases, id.0) {
                Some(
                    LeaseId(
                        old(self)@.leases[model::lease_index(old(self)@.leases, id.0)].lease_id,
                    ),
                )
            } else {
                None
            }),
    {
        let ghost before = self@;
        let position = self.position_of_job(id);
        let revoked = self.take_lease(id);
        let _ = self.store.apply_record(record);
        if let Some(i) = position {
            let ghost states = self.queues@;
            assert(before.queues[i as int] == states[i as int]@);
            let mut k: usize = 0;
            let mut found: bool = false;
            while k < self.queues[i].ready.len() && !found
                invariant
                    i < states.len(),
                    self.queues@ == states,
                    k <= states[i as int].ready@.len(),
                    forall|l: int|
                        0 <= l < k ==> #[trigger] states[i as int].ready@[l] != id.0,
                    found ==> k < states[i as int].ready@.len() && states[i as int].ready@[k as int]
                        == id.0,
                decreases states[i as int].ready@.len() - k + (if found {
                    0int
                } else {
                    1
                }),
            {
                if self.queues[i].ready[k] == id.0 {
                    found = true;
                } else {
                    k = k + 1;
                }
            }
            let ghost ready = states[i as int].ready@;
            proof {
                assert(before.queues[i as int].ready.no_duplicates());
                if found {
                    assert(ready.contains(id.0));
                    assert(ready[ready.index_of(id.0)] == id.0);
                    assert(ready.index_of(id.0) == k);
                } else {
                    assert(!ready.contains(id.0));
                }
            }
            let q = &mut self.queues[i];
            if found {
                let _ = q.ready.remove(k);
            }
            q.cancelled = q.cancelled.saturating_add(1);
            proof {
                lemma_adjusted(
                    before,
                    states,
                    self.queues@,
                    i as int,
                    |q: QueueView|
                        QueueView {
                            ready: if q.ready.contains(id.0) {
                                q.ready.remove(q.ready.index_of(id.0))
                            } else {
                                q.ready
                            },
                            cancelled: stats::bump(q.cancelled),
                            ..q
                        },
                );
            }
        }
        assert(self@ =~= before.after_cancellation(record@));
        revoked
    }

    /// Where the queue of a job stands.
    fn position_of_job(&self, id: JobId) -> (position: Option<usize>)
        requires
            self@.jobs.contains_key(id.0),
        ensures
            match position {
                Some(i) => i < self@.queues.len() && self@.queues[i as int].name
                    == self@.jobs[id.0].queue,
                None => !model::has_queue(self@.queues, self@.jobs[id.0].queue),
            },
    {
        match self.store.get(id) {
            Some(job) => self.queue_position(&job.queue),
            None => None,
        }
    }

    /// Takes every retry that is due: its job goes to the end of its queue, unless
    /// it was cancelled meanwhile.
    pub fn process_due_retries(&mut self, now: u128)
        requires
            old(self)@.well_formed(),
        ensures
            final(self)@ == old(self)@.after_due_retries(now),
            final(self)@.well_formed(),
    {
        let ghost before = self@;
        while self.retries.len() > 0 && self.retries[0].available_at <= now
            invariant
                self@.well_formed(),
                self@.after_due_retries(now) == before.after_due_retries(now),
                self@.retries == self.retries@,
            decreases self.retries@.len(),
        {
            let ghost mid = self@;
            proof {
                laws::lemma_retry_keeps_order(mid);
            }
            if let Some(entry) = self.retries.pop_front() {
                let id = JobId(entry.job);
                let waits: bool = match self.store.get(id) {
                    Some(job) => job.state == JobState::RetryWaiting,
                    None => false,
                };
                assert(mid.retries.subrange(1, mid.retries.len() as int) =~= mid.retries.skip(1));
                if waits {
                    let position = self.position_of_job(id);
                    let _ = self.store.transition_to_queued(id);
                    if let Some(i) = position {
                        let ghost states = self.queues@;
                        let q = &mut self.queues[i];
                        q.ready.push_back(id.0);
                        proof {
                            lemma_adjusted(
                                mid,
                                states,
                                self.queues@,
                                i as int,
                                |q: QueueView| QueueView { ready: q.ready.push(id.0), ..q },
                            );
                        }
                    }
                }
                assert(self@ =~= mid.after_retry());
            }
        }
    }
}

/// Puts a retry behind those that are due no later.
fn insert_retry(retries: &mut VecDeque<RetryEntry>, entry: RetryEntry)
    ensures
        final(retries)@ == model::with_retry(old(retries)@, entry),
{
    let at: u128 = entry.available_at;
    let ghost before = retries@;
    let mut p: usize = retries.len();
    assert(before.take(p as int) =~= before);
    while p > 0 && retries[p - 1].available_at > at
        invariant
            p <= retries@.len(),
            retries@ == before,
            model::retry_position(before, at) == model::retry_position(before.take(p as int), at),
        decreases p,
    {
        assert(before.take(p as int).drop_last() =~= before.take(p - 1));
        assert(before.take(p as int).last() == before[p - 1]);
        p = p - 1;
    }
    proof {
        if p > 0 {
            assert(before.take(p as int).last() == before[p - 1]);
        }
        assert(model::retry_position(before, at) == p);
    }
    retries.insert(p, entry);
}

/// A change to one queue is a change to the queue of its name.
proof fn lemma_adjusted(
    view: CoordinatorView,
    before: Seq<QueueState>,
    after: Seq<QueueState>,
    i: int,
    change: spec_fn(QueueView) -> QueueView,
)
    requires
        view.queues_distinct(),
        view.queues == queue_views(before),
        0 <= i < before.len(),
        after.len() == before.len(),
        forall|k: int| 0 <= k < before.len() && k != i ==> #[trigger] after[k] == before[k],
        after[i]@ == change(before[i]@),
    ensures
        queue_views(after) == model::adjust(view.queues, before[i]@.name, change),
{
    let adjusted = model::adjust(view.queues, before[i]@.name, change);
    assert forall|k: int| 0 <= k < before.len() implies queue_views(after)[k] == adjusted[k] by {
        assert(view.queues[k] == before[k]@);
        assert(view.queues[i] == before[i]@);
    }
    assert(queue_views(after) =~= adjusted);
}

/// What is asked of the coordinator.
#[derive(Debug, PartialEq, Eq)]
pub enum Command {
    /// Submit a job under a new identifier.
    Submit { id: JobId, queue: QueueName, spec: JobSpec },
    /// Look a job up.
    Status { id: JobId },
    /// Cancel a job.
    Cancel { id: JobId },
    /// Report figures.
    Stats,
    /// Give a job to a worker, now or when there is one.
    FetchWork { worker: u64 },
    /// Take note of what became of a job.
    WorkerOutcome { id: JobId, lease_id: LeaseId, outcome: WorkerOutcome },
    /// Stop taking jobs, and end once those that run have ended.
    Shutdown,
}

/// What a command leads to.
#[derive(Debug, PartialEq, Eq)]
pub enum Step {
    /// The record is to be persisted and then applied.
    Persist(WalRecord),
    /// The command is refused.
    Refuse(Error),
    /// The job that was asked for.
    Job(JobRecord),
    /// The figures that were asked for.
    Figures(StatsSnapshot),
    /// The worker waits for a job.
    Park,
    /// The worker gets no job any more.
    Dismiss,
    /// The outcome came too late.
    Stale,
    /// The queue shuts down; these workers get no job any more.
    Drain(Vec<u64>),
}

/// How many leases are of jobs of a queue.
pub open spec fn running_in(
    leases: Seq<ActiveLease>,
    jobs: Map<u128, JobView>,
    queue: Seq<char>,
) -> nat
    decreases leases.len(),
{
    if leases.len() == 0 {
        0
    } else {
        let id = leases.last().job;
        running_in(leases.drop_last(), jobs, queue) + (if jobs.contains_key(id) && jobs[id].queue
            == queue {
            1nat
        } else {
            0
        })
    }
}

/// Whether a retry is of a job that still waits for it.
pub open spec fn still_waits(entry: RetryEntry, jobs: Map<u128, JobView>) -> bool {
    jobs.contains_key(entry.job) && jobs[entry.job].state == JobState::RetryWaiting
}

/// How many jobs of a queue wait for a retry.
pub open spec fn retrying_in(
    retries: Seq<RetryEntry>,
    jobs: Map<u128, JobView>,
    queue: Seq<char>,
) -> nat
    decreases retries.len(),
{
    if retries.len() == 0 {
        0
    } else {
        let entry = retries.last();
        retrying_in(retries.drop_last(), jobs, queue) + (if still_waits(entry, jobs)
            && jobs[entry.job].queue == queue {
            1nat
        } else {
            0
        })
    }
}

/// The sum of a part over all queues.
pub open spec fn sum(queues: Seq<QueueView>, part: spec_fn(QueueView) -> nat) -> nat
    decreases queues.len(),
{
    if queues.len() == 0 {
        0
    } else {
        sum(queues.drop_last(), part) + part(queues.last())
    }
}

/// The jobs of a queue in a state, counted by where they stand: ready, under a
/// lease, with a retry to come, or ended.
pub open spec fn part(view: CoordinatorView, state: JobState) -> spec_fn(QueueView) -> nat {
    |q: QueueView|
        match state {
            JobState::Queued => q.ready.len(),
            JobState::Running => running_in(view.leases, view.jobs, q.name),
            JobState::RetryWaiting => retrying_in(view.retries, view.jobs, q.name),
            JobState::Completed => q.completed as nat,
            JobState::Dead => q.dead as nat,
            JobState::Cancelled => q.cancelled as nat,
        }
}

/// The figure for a state over all queues.
pub open spec fn figure_of(view: CoordinatorView, state: JobState) -> u64 {
    stats::figure(sum(view.queues, part(view, state)))
}

/// The figures of one queue.
pub open spec fn queue_figures(view: CoordinatorView, i: int) -> QueueStats {
    let q = view.queues[i];
    QueueStats {
        submitted: q.submitted,
        queued: stats::figure(q.ready.len()),
        running: stats::figure(running_in(view.leases, view.jobs, q.name)),
        retrying: stats::figure(retrying_in(view.retries, view.jobs, q.name)),
        completed: q.completed,
        dead: q.dead,
        cancelled: q.cancelled,
    }
}

/// Whether figures are those of a state: what was submitted, and of each other
/// figure the sum over the queues. A state has no more jobs than can be counted.
pub open spec fn figures_of(figures: StatsSnapshot, view: CoordinatorView) -> bool {
    &&& view.jobs.dom().len() <= u64::MAX
    &&& figures.submitted == view.totals.submitted
    &&& figures.queued == figure_of(view, JobState::Queued)
    &&& figures.running == figure_of(view, JobState::Running)
    &&& figures.retrying == figure_of(view, JobState::RetryWaiting)
    &&& figures.completed == figure_of(view, JobState::Completed)
    &&& figures.dead == figure_of(view, JobState::Dead)
    &&& figures.cancelled == figure_of(view, JobState::Cancelled)
    &&& figures.retried == view.totals.retried
    &&& figures.stale_outcomes == view.totals.stale_outcomes
    &&& figures.per_queue@.len() == view.queues.len()
    &&& forall|i: int|
        0 <= i < view.queues.len() ==> (#[trigger] figures.per_queue@[i]).0@ == view.queues[i].name
            && figures.per_queue@[i].1 == queue_figures(view, i)
}

impl Coordinator {
    /// Counts the running jobs of a queue.
    fn count_running(&self, name: &QueueName) -> (total: u64)
        ensures
            total == stats::figure(running_in(self@.leases, self@.jobs, name@)),
    {
        let mut total: u64 = 0;
        let len: usize = self.leases.len();
        let ghost leases = self@.leases;
        let mut k: usize = 0;
        while k < len
            invariant
                k <= len == leases.len(),
                leases == self.leases@,
                total == stats::figure(running_in(leases.take(k as int), self@.jobs, name@)),
            decreases len - k,
        {
            assert(leases.take(k + 1).drop_last() =~= leases.take(k as int));
            assert(leases.take(k + 1).last() == leases[k as int]);
            if let Some(job) = self.store.get(JobId(self.leases[k].job)) {
                if job.queue.same_as(name) {
                    total = total.saturating_add(1);
                }
            }
            k = k + 1;
        }
        assert(leases.take(k as int) =~= leases);
        total
    }

    /// Counts the jobs of a queue that wait for a retry.
    fn count_retrying(&self, name: &QueueName) -> (total: u64)
        ensures
            total == stats::figure(retrying_in(self@.retries, self@.jobs, name@)),
    {
        let mut total: u64 = 0;
        let len: usize = self.retries.len();
        let ghost retries = self@.retries;
        let mut k: usize = 0;
        while k < len
            invariant
                k <= len == retries.len(),
                retries == self.retries@,
                total == stats::figure(retrying_in(retries.take(k as int), self@.jobs, name@)),
            decreases len - k,
        {
            assert(retries.take(k + 1).drop_last() =~= retries.take(k as int));
            assert(retries.take(k + 1).last() == retries[k as int]);
            if let Some(job) = self.store.get(JobId(self.retries[k].job)) {
                if job.state == JobState::RetryWaiting && job.queue.same_as(name) {
                    total = total.saturating_add(1);
                }
            }
            k = k + 1;
        }
        assert(retries.take(k as int) =~= retries);
        total
    }

    /// The figures as they are now.
    pub fn do_stats(&self) -> (figures: StatsSnapshot)
        ensures
            figures_of(figures, self@),
    {
        let ghost view = self@;
        let mut all = StatsSnapshot::default();
        let total: usize = self.queues.len();
        let mut i: usize = 0;
        while i < total
            invariant
                i <= total == view.queues.len(),
                view == self@,
                view.queues == queue_views(self.queues@),
                ({
                    let so_far = CoordinatorView { queues: view.queues.take(i as int), ..view };
                    &&& all.queued == figure_of(so_far, JobState::Queued)
                    &&& all.running == figure_of(so_far, JobState::Running)
                    &&& all.retrying == figure_of(so_far, JobState::RetryWaiting)
                    &&& all.completed == figure_of(so_far, JobState::Completed)
                    &&& all.dead == figure_of(so_far, JobState::Dead)
                    &&& all.cancelled == figure_of(so_far, JobState::Cancelled)
                }),
                all.per_queue@.len() == i,
                forall|k: int|
                    0 <= k < i ==> (#[trigger] all.per_queue@[k]).0@ == view.queues[k].name
                        && all.per_queue@[k].1 == queue_figures(view, k),
            decreases total - i,
        {
            let q = &self.queues[i];
            proof {
                let taken = view.queues.take(i as int);
                assert(view.queues[i as int] == q@);
                assert(view.queues.take(i + 1).drop_last() =~= taken);
                assert(view.queues.take(i + 1).last() == q@);
                let so_far = CoordinatorView { queues: taken, ..view };
                let next = CoordinatorView { queues: view.queues.take(i + 1), ..view };
                assert forall|state: JobState| #[trigger] part(next, state) == part(
                    so_far,
                    state,
                ) by {
                    assert(part(next, state) =~= part(so_far, state));
                }
            }
            let figures = QueueStats {
                submitted: q.submitted,
                queued: q.ready.len() as u64,
                running: self.count_running(&q.name),
                retrying: self.count_retrying(&q.name),
                completed: q.completed,
                dead: q.dead,
                cancelled: q.cancelled,
            };
            all.queued = all.queued.saturating_add(figures.queued);
            all.running = all.running.saturating_add(figures.running);
            all.retrying = all.retrying.saturating_add(figures.retrying);
            all.completed = all.completed.saturating_add(figures.completed);
            all.dead = all.dead.saturating_add(figures.dead);
            all.cancelled = all.cancelled.saturating_add(figures.cancelled);
            all.per_queue.push((q.name.as_str().to_owned(), figures));
            i = i + 1;
        }
        proof {
            assert(view.queues.take(i as int) =~= view.queues);
            self.store.lemma_countable();
        }
        all.submitted = self.totals.submitted;
        all.retried = self.totals.retried;
        all.stale_outcomes = self.totals.stale_outcomes;
        all
    }

    /// Whether the queue shuts down.
    pub fn is_shutting_down(&self) -> (shutting_down: bool)
        ensures
            shutting_down == self@.shutting_down,
    {
        self.shutting_down
    }

    /// The state once a shutdown has begun.
    pub open spec fn draining(view: CoordinatorView, now: u128) -> CoordinatorView {
        let deadline = now + view.shutdown_timeout;
        CoordinatorView {
            shutting_down: true,
            parked: Seq::empty(),
            drain_deadline: if deadline > u128::MAX {
                u128::MAX
            } else {
                deadline as u128
            },
            ..view
        }
    }

    /// Begins a shutdown: no job is taken or leased any more. Gives the workers
    /// that waited for one.
    pub fn begin_shutdown(&mut self, now: u128) -> (idle: Vec<u64>)
        requires
            old(self)@.well_formed(),
        ensures
            final(self)@ == Self::draining(old(self)@, now),
            final(self)@.well_formed(),
            idle@ == old(self)@.parked,
    {
        let ghost before = self@;
        let mut idle: Vec<u64> = Vec::new();
        let mut k: usize = 0;
        let total: usize = self.parked.len();
        assert(before.parked.take(0) =~= idle@);
        while k < total
            invariant
                k <= total == self.parked@.len(),
                self@ == before,
                self.parked@ == before.parked,
                idle@ == before.parked.take(k as int),
            decreases total - k,
        {
            idle.push(self.parked[k]);
            assert(before.parked.take(k + 1) =~= before.parked.take(k as int).push(
                before.parked[k as int],
            ));
            k = k + 1;
        }
        assert(before.parked.take(k as int) =~= before.parked);
        self.parked.clear();
        self.shutting_down = true;
        self.drain_deadline = now.saturating_add(self.shutdown_timeout);
        proof {
            assert(self@ =~= Self::draining(before, now));
            laws::lemma_same_work(before, self@);
        }
        idle
    }

    /// Whether a shutdown is over.
    pub open spec fn drained(view: CoordinatorView, now: u128) -> bool {
        view.shutting_down && (view.leases.len() == 0 || view.drain_deadline <= now)
    }

    /// Whether a shutdown is over: no job runs any more, or the time for them is
    /// up.
    pub fn shutdown_complete(&self, now: u128) -> (complete: bool)
        ensures
            complete == Self::drained(self@, now),
            complete == (self@.shutting_down && (self@.leases.len() == 0 || self@.drain_deadline
                <= now)),
    {
        self.shutting_down && (self.leases.len() == 0 || self.drain_deadline <= now)
    }

    /// When a shutdown that has begun stops waiting for running jobs.
    pub fn drain_deadline(&self) -> (deadline: Option<u128>)
        ensures
            deadline == (if self@.shutting_down {
                Some(self@.drain_deadline)
            } else {
                None
            }),
    {
        if self.shutting_down {
            Some(self.drain_deadline)
        } else {
            None
        }
    }

    /// After running jobs have been given up.
    pub open spec fn given_up(view: CoordinatorView) -> CoordinatorView {
        CoordinatorView { leases: Seq::empty(), abandoned: true, ..view }
    }

    /// Gives up the jobs that still run at the end of a shutdown. Their leases
    /// are gone, so that any outcome is stale; the jobs themselves stay as they
    /// are and are settled at the next start. Gives the leases.
    pub fn abandon_leases(&mut self) -> (revoked: Vec<ActiveLease>)
        requires
            old(self)@.well_formed(),
        ensures
            final(self)@ == (CoordinatorView {
                leases: Seq::empty(),
                abandoned: true,
                ..old(self)@
            }),
            final(self)@ == Self::given_up(old(self)@),
            final(self)@.well_formed(),
            revoked@ == old(self)@.leases,
    {
        let ghost before = self@;
        let mut revoked: Vec<ActiveLease> = Vec::new();
        revoked.append(&mut self.leases);
        self.abandoned = true;
        proof {
            assert(revoked@ =~= before.leases);
            assert(self@ =~= (CoordinatorView {
                leases: Seq::empty(),
                abandoned: true,
                ..before
            }));
            laws::lemma_same_work(before, self@);
        }
        revoked
    }

    /// Whether a worker is told of the job that a record hands to it, with the lease
    /// and the attempt of the record.
    pub open spec fn tells(leased: LeasedJob, view: CoordinatorView, record: RecordView) -> bool {
        let job = view.jobs[record.job()];
        &&& leased.lease_id.0 == record->JobLeased_lease_id
        &&& leased.context.id.0 == record.job()
        &&& leased.context.queue@ == job.queue
        &&& leased.context.payload@ == job.payload
        &&& leased.context.attempt == record->JobLeased_attempt
        &&& leased.context.max_attempts == job.max_attempts
    }

    /// Applies the record of a lease that has been persisted. Gives the job to be
    /// run.
    pub fn lease(&mut self, record: &WalRecord, clock: Clock) -> (leased: LeasedJob)
        requires
            old(self)@.well_formed(),
            old(self)@.admits(record@),
            record@ is JobLeased,
        ensures
            final(self)@ == old(self)@.after(record@, clock),
            final(self)@.well_formed(),
            Self::tells(leased, old(self)@, record@),
            ({
                let job = final(self)@.jobs[record@.job()];
                &&& leased.lease_id.0 == record@->JobLeased_lease_id
                &&& leased.context.id.0 == record@.job()
                &&& leased.context.queue@ == job.queue
                &&& leased.context.payload@ == job.payload
                &&& leased.context.attempt == record@->JobLeased_attempt
                &&& leased.context.max_attempts == job.max_attempts
            }),
    {
        let ghost before = self@;
        let lease_id = LeaseId(self.next_lease_epoch);
        let applied = self.apply(record, clock);
        let job = applied.job;
        proof {
            laws::lemma_lease_keeps_order(before, record@, clock);
        }
        LeasedJob {
            context: JobContext {
                id: job.id,
                queue: job.queue,
                payload: job.spec.payload,
                attempt: job.attempts,
                max_attempts: job.spec.max_attempts,
            },
            lease_id,
        }
    }

    /// What a command leads to.
    pub open spec fn answers(
        view: CoordinatorView,
        command: Command,
        clock: Clock,
        sample: u32,
        step: Step,
    ) -> bool {
        match command {
            Command::Submit { id, queue, spec } => match Self::submit_fault(
                view,
                queue@,
                spec.payload@.len(),
            ) {
                Some(fault) => step matches Step::Refuse(error) && error@ == fault,
                None => step matches Step::Persist(record) && record@ == (
                RecordView::JobSubmitted {
                    id: id.0,
                    queue: queue@,
                    payload: spec.payload@,
                    max_attempts: spec.max_attempts,
                    created_at: clock.wall.0,
                }),
            },
            Command::Status { id } => if view.jobs.contains_key(id.0) {
                step matches Step::Job(job) && job@ == view.jobs[id.0]
            } else {
                step matches Step::Refuse(error) && error@ == Fault::JobNotFound(
                    types::hyphenated(id.0),
                )
            },
            Command::Cancel { id } => match Self::cancel_fault(view, id.0) {
                Some(fault) => step matches Step::Refuse(error) && error@ == fault,
                None => step matches Step::Persist(record) && record@ == (
                RecordView::JobCancelled { id: id.0, cancelled_at: clock.wall.0 }),
            },
            Command::Stats => step matches Step::Figures(figures) && figures_of(figures, view),
            Command::FetchWork { .. } => if view.shutting_down {
                step == Step::Dismiss
            } else {
                step == Step::Park
            },
            Command::WorkerOutcome { id, lease_id, outcome } => if view.holds_lease(
                id.0,
                lease_id.0,
            ) {
                step matches Step::Persist(record) && record@ == view.verdict(
                    id.0,
                    lease_id.0,
                    outcome,
                    clock.wall.0,
                    sample,
                )
            } else {
                step == Step::Stale
            },
            Command::Shutdown => step matches Step::Drain(idle) && idle@ == view.parked,
        }
    }

    /// What a command changes at once. What it asks to be persisted changes
    /// nothing yet.
    pub open spec fn changed_by(view: CoordinatorView, command: Command, clock: Clock) -> CoordinatorView {
        match command {
            Command::FetchWork { worker } => if view.shutting_down {
                view
            } else {
                CoordinatorView { parked: view.parked.push(worker), ..view }
            },
            Command::WorkerOutcome { id, lease_id, .. } => if view.holds_lease(id.0, lease_id.0) {
                view
            } else {
                CoordinatorView {
                    totals: GlobalStats {
                        stale_outcomes: stats::bump(view.totals.stale_outcomes),
                        ..view.totals
                    },
                    ..view
                }
            },
            Command::Shutdown => Self::draining(view, clock.now),
            _ => view,
        }
    }

    /// Takes a command. Whatever it changes durably is handed back as a record to
    /// be persisted, and changes nothing before that has been applied.
    pub fn handle(&mut self, command: Command, clock: Clock, sample: u32) -> (step: Step)
        requires
            old(self)@.well_formed(),
            command matches Command::Submit { id, .. } ==> !old(self)@.jobs.contains_key(id.0),
        ensures
            Self::answers(old(self)@, command, clock, sample, step),
            final(self)@ == Self::changed_by(old(self)@, command, clock),
            final(self)@.well_formed(),
            step matches Step::Persist(record) ==> final(self)@.admits(record@),
    {
        let ghost before = self@;
        match command {
            Command::Submit { id, queue, spec } => match self.do_submit(
                id,
                queue,
                spec,
                clock.wall,
            ) {
                Ok(record) => Step::Persist(record),
                Err(error) => Step::Refuse(error),
            },
            Command::Status { id } => match self.do_status(id) {
                Ok(job) => Step::Job(job),
                Err(error) => Step::Refuse(error),
            },
            Command::Cancel { id } => match self.do_cancel(id, clock.wall) {
                Ok(record) => Step::Persist(record),
                Err(error) => Step::Refuse(error),
            },
            Command::Stats => Step::Figures(self.do_stats()),
            Command::FetchWork { worker } => {
                if self.shutting_down {
                    return Step::Dismiss;
                }
                self.parked.push_back(worker);
                proof {
                    assert(self@ =~= (CoordinatorView {
                        parked: before.parked.push(worker),
                        ..before
                    }));
                    laws::lemma_same_work(before, self@);
                }
                Step::Park
            },
            Command::WorkerOutcome { id, lease_id, outcome } => match self.do_worker_outcome(
                id,
                lease_id,
                outcome,
                clock.wall,
                sample,
            ) {
                Some(record) => Step::Persist(record),
                None => Step::Stale,
            },
            Command::Shutdown => Step::Drain(self.begin_shutdown(clock.now)),
        }
    }
}

impl Coordinator {
    /// A coordinator that takes up recovered work: queued jobs are ready in the
    /// order of submission, each once, and retries come due when they were to.
    pub fn from_recovered(config: &RuntimeConfig, state: RecoveredState, clock: Clock) -> (
        coordinator: Self)
        requires
            config.valid(),
            restore::is_recovered(state, config.queues@),
        ensures
            coordinator@ == restore::restored(Self::initial(*config), state, clock),
            coordinator@.well_formed(),
    {
        let mut coordinator = Coordinator::new(config);
        let ghost fresh = coordinator@;
        let ghost target = restore::restored(fresh, state, clock);
        proof {
            restore::lemma_restored_is_well_formed(fresh, config.queues@, state, clock);
            restore::lemma_queued_are_stored(state, config.queues@);
        }
        let mut queues: Vec<QueueState> = Vec::new();
        let total: usize = config.queues.len();
        let mut i: usize = 0;
        while i < total
            invariant
                i <= total == config.queues@.len() == target.queues.len(),
                fresh == Self::initial(*config),
                target == restore::restored(fresh, state, clock),
                forall|k: int|
                    0 <= k < state.queued_jobs@.len() ==> state.store@.contains_key(
                        (#[trigger] state.queued_jobs@[k]).1.0,
                    ),
                queues@.len() == i,
                forall|k: int| 0 <= k < i ==> (#[trigger] queues@[k])@ == target.queues[k],
            decreases total - i,
        {
            let name = config.queues[i].name.clone();
            let ready = ready_in(&state, &name);
            let tally = state.store.tally(&name);
            let queue = QueueState {
                name,
                ready,
                submitted: tally.submitted,
                completed: tally.completed,
                dead: tally.dead,
                cancelled: tally.cancelled,
            };
            assert(queue@ =~= target.queues[i as int]);
            queues.push(queue);
            i = i + 1;
        }
        assert(queue_views(queues@) =~= target.queues);
        coordinator.queues = queues;
        let mut retries: VecDeque<RetryEntry> = VecDeque::new();
        let ghost due = recovery::retry_views(state.retry_jobs@);
        let count: usize = state.retry_jobs.len();
        let mut r: usize = 0;
        assert(due.take(0) =~= Seq::empty());
        assert(retries@ =~= restore::schedule(due.take(0), clock));
        while r < count
            invariant
                r <= count == state.retry_jobs@.len(),
                due == recovery::retry_views(state.retry_jobs@),
                retries@ == restore::schedule(due.take(r as int), clock),
            decreases count - r,
        {
            let (id, at) = state.retry_jobs[r];
            assert(due.take(r + 1).drop_last() =~= due.take(r as int));
            assert(due.take(r + 1).last() == (id.0, at.0));
            insert_retry(
                &mut retries,
                RetryEntry { available_at: monotonic(clock, at), job: id.0 },
            );
            r = r + 1;
        }
        assert(due.take(r as int) =~= due);
        coordinator.retries = retries;
        coordinator.next_lease_epoch = state.next_lease_epoch;
        coordinator.totals = GlobalStats {
            submitted: state.submitted,
            retried: state.retried,
            stale_outcomes: 0,
        };
        coordinator.store = state.store;
        assert(coordinator@ =~= target);
        coordinator
    }
}

/// The jobs that are ready in a queue after a restart.
fn ready_in(state: &RecoveredState, queue: &QueueName) -> (ready: VecDeque<u128>)
    requires
        forall|k: int|
            0 <= k < state.queued_jobs@.len() ==> state.store@.contains_key(
                (#[trigger] state.queued_jobs@[k]).1.0,
            ),
    ensures
        ready@ == restore::ready_in(
            recovery::entry_views(state.queued_jobs@),
            state.store@,
            queue@,
        ),
{
    broadcast use vstd::std_specs::hash::group_hash_axioms;

    let ghost entries = recovery::entry_views(state.queued_jobs@);
    let mut ready: VecDeque<u128> = VecDeque::new();
    let mut seen: HashSet<u128> = HashSet::new();
    let total: usize = state.queued_jobs.len();
    let mut i: usize = 0;
    assert(ready@ =~= restore::ready_in(entries.take(0), state.store@, queue@));
    while i < total
        invariant
            i <= total == state.queued_jobs@.len(),
            entries == recovery::entry_views(state.queued_jobs@),
            forall|k: int|
                0 <= k < state.queued_jobs@.len() ==> state.store@.contains_key(
                    (#[trigger] state.queued_jobs@[k]).1.0,
                ),
            ready@ == restore::ready_in(entries.take(i as int), state.store@, queue@),
            forall|id: u128| #[trigger] seen@.contains(id) <==> ready@.contains(id),
        decreases total - i,
    {
        let ghost before = ready@;
        let entry = &state.queued_jobs[i];
        let id: u128 = entry.1.0;
        assert(entries.take(i + 1).drop_last() =~= entries.take(i as int));
        assert(entries.take(i + 1).last() == (entry.0@, id));
        let own: bool = match state.store.get(entry.1) {
            Some(job) => job.queue.same_as(queue),
            None => false,
        };
        if own && entry.0.same_as(queue) && !seen.contains(&id) {
            seen.insert(id);
            ready.push_back(id);
            assert forall|other: u128| #[trigger] ready@.contains(other) <==> (before.contains(other)
                || other == id) by {
                if before.contains(other) {
                    let k = choose|k: int| 0 <= k < before.len() && before[k] == other;
                    assert(ready@[k] == other);
                }
                assert(ready@[before.len() as int] == id);
            }
        }
        i = i + 1;
    }
    assert(entries.take(i as int) =~= entries);
    ready
}

/// Whether a fault says rightly why a queue cannot start from a log with the
/// given contents.
pub open spec fn startup_fault(
    fault: WalFault,
    contents: Seq<u8>,
    config: RuntimeConfig,
    wall: i64,
) -> bool {
    contents.len() > 0 && match scanner::scan_log(contents) {
        Err(found) => fault == found,
        Ok(found) => {
            let view = recovery::replay(recovery::reconciled(found.records, wall));
            let entries = recovery::queued(view.order, view.jobs);
            let retries = recovery::waiting(view, view.ids);
            if scanner::max_epoch(found.records) == u64::MAX {
                fault == WalFault::LeaseEpochExhausted
            } else {
                recovery::refuses(fault, config.queues@, entries, retries, view.jobs)
            }
        },
    }
}

/// The records that a queue starts from: those of its log, reconciled.
pub open spec fn starting_records(contents: Seq<u8>, wall: i64) -> Seq<RecordView> {
    if contents.len() == 0 {
        Seq::empty()
    } else {
        recovery::reconciled(scanner::scan_log(contents)->Ok_0.records, wall)
    }
}

/// Where nothing was recovered no queue has too much.
proof fn lemma_nothing_fits(queues: Seq<QueueConfig>, state: RecoveredState)
    requires
        state.rebuilt_from(Seq::empty()),
    ensures
        recovery::within_capacity(
            queues,
            recovery::entry_views(state.queued_jobs@),
            recovery::retry_views(state.retry_jobs@),
            state.store@,
        ),
{
    let entries = recovery::entry_views(state.queued_jobs@);
    let retries = recovery::retry_views(state.retry_jobs@);
    assert(entries.len() == 0);
    assert(retries.len() == 0);
    assert forall|i: int| 0 <= i < queues.len() implies recovery::live(
        entries,
        retries,
        state.store@,
        (#[trigger] queues[i]).name@,
    ) <= recovery::capacity_of(queues, queues[i].name@)->Some_0 by {
        assert(recovery::ids_in(entries, queues[i].name@).len() == 0);
    }
}

impl Coordinator {
    /// Starts a queue: checks its configuration, and where it is kept in a log
    /// recovers what that holds and takes the work up.
    pub fn start(config: &RuntimeConfig, log: &mut Vec<u8>, clock: Clock) -> (outcome: Result<Self>)
        ensures
            match outcome {
                Ok(coordinator) => {
                    &&& config.valid()
                    &&& coordinator@.well_formed()
                    &&& match config.storage {
                        StorageConfig::Memory => coordinator@ == Self::initial(*config),
                        StorageConfig::Wal { .. } => exists|state: RecoveredState|
                            {
                                &&& #[trigger] state.rebuilt_from(
                                    starting_records(old(log)@, clock.wall.0),
                                )
                                &&& coordinator@ == restore::restored(
                                    Self::initial(*config),
                                    state,
                                    clock,
                                )
                                &&& restore::is_recovered(state, config.queues@)
                                &&& recovery::within_capacity(
                                    config.queues@,
                                    recovery::entry_views(state.queued_jobs@),
                                    recovery::retry_views(state.retry_jobs@),
                                    state.store@,
                                )
                            },
                    }
                },
                Err(error) => match error@ {
                    Fault::InvalidConfiguration(_) => config.first_fault(error@),
                    Fault::Storage(fault) => config.valid() && config.storage is Wal
                        && startup_fault(fault, old(log)@, *config, clock.wall.0),
                    _ => false,
                },
            },
            final(log)@ == (if config.valid() && config.storage is Wal {
                recovery::recovered_log(old(log)@, clock.wall.0)
            } else {
                old(log)@
            }),
    {
        match config.validate() {
            Ok(()) => {},
            Err(error) => return Err(error),
        }
        match &config.storage {
            StorageConfig::Memory => Ok(Coordinator::new(config)),
            StorageConfig::Wal { .. } => {
                let ghost contents = log@;
                let state = match recover(log, config, clock.wall) {
                    Ok(state) => state,
                    Err(error) => return Err(Error::Storage(error)),
                };
                proof {
                    if contents.len() == 0 {
                        let none = Seq::<RecordView>::empty();
                        assert(recovery::reconciled(none, clock.wall.0) =~= none);
                        assert(state.rebuilt_from(recovery::reconciled(none, clock.wall.0)));
                    } else {
                        let records = scanner::scan_log(contents)->Ok_0.records;
                        assert(state.rebuilt_from(recovery::reconciled(records, clock.wall.0)));
                    }
                    assert(restore::is_recovered(state, config.queues@));
                    if contents.len() == 0 {
                        lemma_nothing_fits(config.queues@, state);
                    }
                    assert(state.rebuilt_from(starting_records(contents, clock.wall.0)));
                }
                Ok(Coordinator::from_recovered(config, state, clock))
            },
        }
    }
}

} // verus!
