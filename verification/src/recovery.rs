//! Rebuilding the queue from its log after a restart.

use crate::config::{QueueConfig, RuntimeConfig};
use crate::store;
use crate::store::MemoryStore;
use crate::types::{JobId, JobRecord, JobState, JobView, LeaseId, QueueName, UnixMillis};
use crate::wal::codec;
use crate::wal::codec::{WalFrame, HEADER_SIZE};
use crate::wal::error::{WalError, WalFault, WalResult};
use crate::wal::record;
use crate::wal::record::{RecordView, WalRecord};
use crate::wal::scanner;
use crate::wal::scanner::{repair_truncated_tail, scan_wal, ScanResult, ScanView};
use crate::wal::writer::WalWriter;
use std::collections::HashMap;
use vstd::prelude::*;

verus! {

broadcast use vstd::std_specs::hash::group_hash_axioms;

/// How many records there are of each kind.
#[derive(Debug, Clone, Copy, PartialEq, Eq)]
pub struct RecordCounts {
    pub submitted: u64,
    pub leased: u64,
    pub retry_scheduled: u64,
    pub completed: u64,
    pub dead: u64,
    pub cancelled: u64,
}

/// How many records have the given type.
pub open spec fn count(records: Seq<RecordView>, tag: u8) -> nat
    decreases records.len(),
{
    if records.len() == 0 {
        0
    } else {
        count(records.drop_last(), tag) + (if records.last().tag() == tag {
            1nat
        } else {
            0
        })
    }
}

/// Counts the records of each kind.
pub fn count_records(records: &Vec<WalRecord>) -> (counts: RecordCounts)
    ensures
        counts.submitted == count(scanner::record_views(records@), 1),
        counts.leased == count(scanner::record_views(records@), 2),
        counts.retry_scheduled == count(scanner::record_views(records@), 3),
        counts.completed == count(scanner::record_views(records@), 4),
        counts.dead == count(scanner::record_views(records@), 5),
        counts.cancelled == count(scanner::record_views(records@), 6),
{
    let mut counts = RecordCounts {
        submitted: 0,
        leased: 0,
        retry_scheduled: 0,
        completed: 0,
        dead: 0,
        cancelled: 0,
    };
    let ghost views = scanner::record_views(records@);
    let total: usize = records.len();
    let mut i: usize = 0;
    while i < total
        invariant
            i <= total == records@.len(),
            views == scanner::record_views(records@),
            counts.submitted == count(views.take(i as int), 1) <= i,
            counts.leased == count(views.take(i as int), 2) <= i,
            counts.retry_scheduled == count(views.take(i as int), 3) <= i,
            counts.completed == count(views.take(i as int), 4) <= i,
            counts.dead == count(views.take(i as int), 5) <= i,
            counts.cancelled == count(views.take(i as int), 6) <= i,
        decreases total - i,
    {
        proof {
            assert(views.take(i + 1).drop_last() =~= views.take(i as int));
            assert(views.take(i + 1).last() == records@[i as int]@);
        }
        match &records[i] {
            WalRecord::JobSubmitted { .. } => {
                counts.submitted = counts.submitted + 1;
            },
            WalRecord::JobLeased { .. } => {
                counts.leased = counts.leased + 1;
            },
            WalRecord::JobRetryScheduled { .. } => {
                counts.retry_scheduled = counts.retry_scheduled + 1;
            },
            WalRecord::JobCompleted { .. } => {
                counts.completed = counts.completed + 1;
            },
            WalRecord::JobDead { .. } => {
                counts.dead = counts.dead + 1;
            },
            WalRecord::JobCancelled { .. } => {
                counts.cancelled = counts.cancelled + 1;
            },
        }
        i = i + 1;
    }
    assert(views.take(i as int) =~= views);
    counts
}

/// What replaying a log builds.
#[verifier::ext_equal]
pub struct ReplayView {
    /// The jobs.
    pub jobs: Map<u128, JobView>,
    /// The identifiers of the jobs, in the order of their first submission.
    pub ids: Seq<u128>,
    /// The queues and the jobs that wait in them, in the order of submission.
    pub order: Seq<(Seq<char>, u128)>,
    /// The leases that were not given back.
    pub leases: Map<u128, u64>,
    /// When the retries that were scheduled are due.
    pub available: Map<u128, i64>,
}

/// The entries but those of the given job in the given queue.
pub open spec fn without(
    order: Seq<(Seq<char>, u128)>,
    queue: Seq<char>,
    id: u128,
) -> Seq<(Seq<char>, u128)>
    decreases order.len(),
{
    if order.len() == 0 {
        Seq::empty()
    } else {
        let rest = without(order.drop_last(), queue, id);
        if order.last() == (queue, id) {
            rest
        } else {
            rest.push(order.last())
        }
    }
}

/// The jobs after a record of the log, whatever state its job was in. A record
/// about a job that was never submitted changes nothing.
pub open spec fn replayed(jobs: Map<u128, JobView>, record: RecordView) -> Map<u128, JobView> {
    if record is JobSubmitted || jobs.contains_key(record.job()) {
        store::applied(jobs, record)
    } else {
        jobs
    }
}

impl ReplayView {
    /// Before the first record.
    pub open spec fn start() -> ReplayView {
        ReplayView {
            jobs: Map::empty(),
            ids: Seq::empty(),
            order: Seq::empty(),
            leases: Map::empty(),
            available: Map::empty(),
        }
    }

    /// The waiting jobs once a job has left its queue.
    pub open spec fn order_without(self, id: u128) -> Seq<(Seq<char>, u128)> {
        if self.jobs.contains_key(id) {
            without(self.order, self.jobs[id].queue, id)
        } else {
            self.order
        }
    }

    /// After one more record.
    pub open spec fn step(self, record: RecordView) -> ReplayView {
        let jobs = replayed(self.jobs, record);
        match record {
            RecordView::JobSubmitted { id, queue, .. } => ReplayView {
                jobs,
                ids: if self.jobs.contains_key(id) {
                    self.ids
                } else {
                    self.ids.push(id)
                },
                order: self.order.push((queue, id)),
                ..self
            },
            RecordView::JobLeased { id, lease_id, .. } => ReplayView {
                jobs,
                order: self.order_without(id),
                leases: self.leases.insert(id, lease_id),
                available: self.available.remove(id),
                ..self
            },
            RecordView::JobRetryScheduled { id, available_at, .. } => ReplayView {
                jobs,
                leases: self.leases.remove(id),
                available: self.available.insert(id, available_at),
                ..self
            },
            _ => ReplayView {
                jobs,
                order: self.order_without(record.job()),
                leases: self.leases.remove(record.job()),
                available: self.available.remove(record.job()),
                ..self
            },
        }
    }

    /// After more records.
    pub open spec fn steps(self, records: Seq<RecordView>) -> ReplayView
        decreases records.len(),
    {
        if records.len() == 0 {
            self
        } else {
            self.steps(records.drop_last()).step(records.last())
        }
    }

    /// What always holds of a replay: each job is listed once and found under
    /// its identifier, a running job has a lease, and a job that waits for its
    /// retry has a time for it.
    pub open spec fn consistent(self) -> bool {
        &&& store::keyed(self.jobs)
        &&& self.ids.no_duplicates()
        &&& forall|id: u128| #[trigger]
            self.jobs.contains_key(id) <==> self.ids.contains(id)
        &&& forall|id: u128| #[trigger]
            self.jobs.contains_key(id) ==> self.jobs[id].state == JobState::Running
                ==> self.leases.contains_key(id)
        &&& forall|id: u128| #[trigger]
            self.jobs.contains_key(id) ==> self.jobs[id].state == JobState::RetryWaiting
                ==> self.available.contains_key(id)
    }
}

/// What replaying records from the beginning builds.
pub open spec fn replay(records: Seq<RecordView>) -> ReplayView {
    ReplayView::start().steps(records)
}

/// The record that settles a job whose worker was lost: another try if one is
/// left, else the end. No attempt is counted for it.
pub open spec fn settlement(id: u128, job: JobView, lease_id: u64, now: i64) -> RecordView {
    if job.attempts < job.max_attempts {
        RecordView::JobRetryScheduled { id, lease_id, attempt: job.attempts, available_at: now }
    } else {
        RecordView::JobDead { id, lease_id, dead_at: now }
    }
}

/// The records that settle the jobs among `ids` that were running, in order.
pub open spec fn settlements(view: ReplayView, ids: Seq<u128>, now: i64) -> Seq<RecordView>
    decreases ids.len(),
{
    if ids.len() == 0 {
        Seq::empty()
    } else {
        let before = settlements(view, ids.drop_last(), now);
        let id = ids.last();
        if view.jobs[id].state == JobState::Running {
            before.push(settlement(id, view.jobs[id], view.leases[id], now))
        } else {
            before
        }
    }
}

/// The records that settle every job that was running.
pub open spec fn reconciliation(view: ReplayView, now: i64) -> Seq<RecordView> {
    settlements(view, view.ids, now)
}

/// The records of a log once it has been reconciled.
pub open spec fn reconciled(records: Seq<RecordView>, now: i64) -> Seq<RecordView> {
    records + reconciliation(replay(records), now)
}

/// The entries whose job is queued.
pub open spec fn queued(order: Seq<(Seq<char>, u128)>, jobs: Map<u128, JobView>) -> Seq<
    (Seq<char>, u128),
>
    decreases order.len(),
{
    if order.len() == 0 {
        Seq::empty()
    } else {
        let before = queued(order.drop_last(), jobs);
        let id = order.last().1;
        if jobs.contains_key(id) && jobs[id].state == JobState::Queued {
            before.push(order.last())
        } else {
            before
        }
    }
}

/// The jobs among `ids` that wait for a retry, with the time it is due.
pub open spec fn waiting(view: ReplayView, ids: Seq<u128>) -> Seq<(u128, i64)>
    decreases ids.len(),
{
    if ids.len() == 0 {
        Seq::empty()
    } else {
        let before = waiting(view, ids.drop_last());
        let id = ids.last();
        if view.jobs[id].state == JobState::RetryWaiting {
            before.push((id, view.available[id]))
        } else {
            before
        }
    }
}

/// What was recovered from a log.
pub struct RecoveredState {
    /// The jobs.
    pub store: MemoryStore,
    /// The queued jobs and their queues, in the order of submission.
    pub queued_jobs: Vec<(QueueName, JobId)>,
    /// The jobs that wait for a retry, with the time it is due, in the order of
    /// submission.
    pub retry_jobs: Vec<(JobId, UnixMillis)>,
    /// The sequence number of the next frame.
    pub next_sequence: u64,
    /// The epoch of the next lease.
    pub next_lease_epoch: u64,
    /// How many jobs were submitted.
    pub submitted: u64,
    /// How many jobs completed.
    pub completed: u64,
    /// How many jobs died.
    pub dead: u64,
    /// How many jobs were cancelled.
    pub cancelled: u64,
    /// How many retries were scheduled.
    pub retried: u64,
}

/// Queue entries as they are in a replay.
pub open spec fn entry_views(entries: Seq<(QueueName, JobId)>) -> Seq<(Seq<char>, u128)> {
    entries.map_values(|entry: (QueueName, JobId)| (entry.0@, entry.1.0))
}

/// Due retries as they are in a replay.
pub open spec fn retry_views(retries: Seq<(JobId, UnixMillis)>) -> Seq<(u128, i64)> {
    retries.map_values(|retry: (JobId, UnixMillis)| (retry.0.0, retry.1.0))
}

impl RecoveredState {
    /// Whether this is the state that the given records lead to.
    pub open spec fn rebuilt_from(self, records: Seq<RecordView>) -> bool {
        let view = replay(records);
        &&& self.store@ == view.jobs
        &&& entry_views(self.queued_jobs@) == queued(view.order, view.jobs)
        &&& retry_views(self.retry_jobs@) == waiting(view, view.ids)
        &&& self.next_sequence == records.len() + 1
        &&& self.next_lease_epoch == scanner::max_epoch(records) + 1
        &&& self.submitted == count(records, 1)
        &&& self.retried == count(records, 3)
        &&& self.completed == count(records, 4)
        &&& self.dead == count(records, 5)
        &&& self.cancelled == count(records, 6)
    }

    /// The identifiers of the jobs that wait in a queue, in order.
    pub open spec fn queued_ids(self, queue: Seq<char>) -> Seq<u128> {
        ids_in(entry_views(self.queued_jobs@), queue)
    }

    /// The jobs that wait in a queue, in the order of submission.
    pub fn queued_in(&self, queue: &QueueName) -> (ids: Vec<JobId>)
        ensures
            ids@.map_values(|id: JobId| id.0) == self.queued_ids(queue@),
    {
        let mut ids: Vec<JobId> = Vec::new();
        let ghost entries = entry_views(self.queued_jobs@);
        let total: usize = self.queued_jobs.len();
        let mut i: usize = 0;
        assert(ids@.map_values(|id: JobId| id.0) =~= ids_in(entries.take(0), queue@));
        while i < total
            invariant
                i <= total == self.queued_jobs@.len(),
                entries == entry_views(self.queued_jobs@),
                ids@.map_values(|id: JobId| id.0) == ids_in(entries.take(i as int), queue@),
            decreases total - i,
        {
            let ghost before = ids@;
            assert(entries.take(i + 1).drop_last() =~= entries.take(i as int));
            let entry = &self.queued_jobs[i];
            assert(entries.take(i + 1).last() == (entry.0@, entry.1.0));
            if entry.0.same_as(queue) {
                ids.push(entry.1);
                assert(ids@.map_values(|id: JobId| id.0) =~= before.map_values(
                    |id: JobId| id.0,
                ).push(entry.1.0));
            }
            i = i + 1;
        }
        assert(entries.take(i as int) =~= entries);
        ids
    }
}

/// The jobs of the entries of one queue.
pub open spec fn ids_in(entries: Seq<(Seq<char>, u128)>, queue: Seq<char>) -> Seq<u128>
    decreases entries.len(),
{
    if entries.len() == 0 {
        Seq::empty()
    } else {
        let before = ids_in(entries.drop_last(), queue);
        if entries.last().0 == queue {
            before.push(entries.last().1)
        } else {
            before
        }
    }
}

/// What is kept of the log beside the jobs while it is replayed.
pub struct RecoveryTracker {
    ids: Vec<u128>,
    order: Vec<(QueueName, JobId)>,
    leases: HashMap<u128, u64>,
    available: HashMap<u128, i64>,
}

impl RecoveryTracker {
    /// Whether the tracker and a store together hold what a replay builds.
    pub closed spec fn tracks(self, jobs: Map<u128, JobView>, view: ReplayView) -> bool {
        &&& jobs == view.jobs
        &&& self.ids@ == view.ids
        &&& entry_views(self.order@) == view.order
        &&& self.leases@ == view.leases
        &&& self.available@ == view.available
    }

    /// Before the first record.
    pub fn new() -> (tracker: Self)
        ensures
            tracker.tracks(Map::empty(), ReplayView::start()),
    {
        let tracker = RecoveryTracker {
            ids: Vec::new(),
            order: Vec::new(),
            leases: HashMap::new(),
            available: HashMap::new(),
        };
        assert(tracker.leases@ =~= Map::empty());
        assert(tracker.available@ =~= Map::empty());
        assert(entry_views(tracker.order@) =~= Seq::empty());
        tracker
    }

    /// Takes note of a record, before it is applied to the store.
    pub fn track_record(&mut self, store: &MemoryStore, record: &WalRecord)
        ensures
            forall|view: ReplayView|
                #![trigger old(self).tracks(store@, view)]
                old(self).tracks(store@, view) ==> final(self).tracks(
                    view.step(record@).jobs,
                    view.step(record@),
                ),
    {
        let ghost before = *self;
        match record {
            WalRecord::JobSubmitted { id, queue, .. } => {
                if store.get(*id).is_none() {
                    self.ids.push(id.0);
                }
                self.order.push((queue.clone(), *id));
                assert(entry_views(self.order@) =~= entry_views(before.order@).push(
                    (queue@, id.0),
                ));
            },
            WalRecord::JobLeased { id, lease_id, .. } => {
                self.leases.insert(id.0, lease_id.0);
                self.available.remove(&id.0);
                self.leave_queue(store, *id);
                assert(self.available@ =~= before.available@.remove(id.0));
            },
            WalRecord::JobRetryScheduled { id, available_at, .. } => {
                self.leases.remove(&id.0);
                self.available.insert(id.0, available_at.0);
                assert(self.leases@ =~= before.leases@.remove(id.0));
            },
            WalRecord::JobCompleted { id, .. } => {
                self.forget(store, *id);
            },
            WalRecord::JobDead { id, .. } => {
                self.forget(store, *id);
            },
            WalRecord::JobCancelled { id, .. } => {
                self.forget(store, *id);
            },
        }
    }

    /// Drops a job that has ended.
    fn forget(&mut self, store: &MemoryStore, id: JobId)
        ensures
            final(self).ids@ == old(self).ids@,
            final(self).leases@ == old(self).leases@.remove(id.0),
            final(self).available@ == old(self).available@.remove(id.0),
            entry_views(final(self).order@) == (if store@.contains_key(id.0) {
                without(entry_views(old(self).order@), store@[id.0].queue, id.0)
            } else {
                entry_views(old(self).order@)
            }),
    {
        let ghost before = *self;
        self.leases.remove(&id.0);
        self.available.remove(&id.0);
        self.leave_queue(store, id);
        assert(self.leases@ =~= before.leases@.remove(id.0));
        assert(self.available@ =~= before.available@.remove(id.0));
    }

    /// Takes a job out of the order of its queue.
    fn leave_queue(&mut self, store: &MemoryStore, id: JobId)
        ensures
            final(self).ids@ == old(self).ids@,
            final(self).leases@ == old(self).leases@,
            final(self).available@ == old(self).available@,
            entry_views(final(self).order@) == (if store@.contains_key(id.0) {
                without(entry_views(old(self).order@), store@[id.0].queue, id.0)
            } else {
                entry_views(old(self).order@)
            }),
    {
        if let Some(job) = store.get(id) {
            let ghost all = entry_views(self.order@);
            let ghost mut seen: int = 0;
            let mut i: usize = 0;
            assert(without(all.take(0), job.queue@, id.0) + all.skip(0) =~= all);
            while i < self.order.len()
                invariant
                    i <= self.order@.len(),
                    0 <= seen <= all.len(),
                    self.ids@ == old(self).ids@,
                    self.leases@ == old(self).leases@,
                    self.available@ == old(self).available@,
                    i == without(all.take(seen), job.queue@, id.0).len(),
                    entry_views(self.order@) == without(all.take(seen), job.queue@, id.0)
                        + all.skip(seen),
                decreases self.order@.len() - i,
            {
                let ghost now = entry_views(self.order@);
                proof {
                    assert(now[i as int] == all[seen]);
                    assert(all.take(seen + 1).drop_last() =~= all.take(seen));
                    assert(all.take(seen + 1).last() == all[seen]);
                    assert(self.order@[i as int].0@ == now[i as int].0);
                    assert(self.order@[i as int].1.0 == now[i as int].1);
                }
                let ghost kept = without(all.take(seen), job.queue@, id.0);
                if self.order[i].1.0 == id.0 && self.order[i].0.same_as(&job.queue) {
                    let ghost prior = self.order@;
                    self.order.remove(i);
                    assert(self.order@ =~= prior.remove(i as int));
                    assert(entry_views(self.order@) =~= now.remove(i as int));
                    assert(now.remove(i as int) =~= kept + all.skip(seen + 1));
                } else {
                    assert(now =~= kept.push(all[seen]) + all.skip(seen + 1));
                    i = i + 1;
                }
                proof {
                    seen = seen + 1;
                }
            }
            assert(all.take(seen) =~= all);
            assert(without(all, job.queue@, id.0) + all.skip(seen) =~= without(
                all,
                job.queue@,
                id.0,
            ));
        }
    }
}

/// Applies a record of the log to the store, whatever state its job is in. A
/// record about an unknown job is passed over.
pub fn apply_record_for_recovery(store: &mut MemoryStore, record: &WalRecord)
    ensures
        final(store)@ == replayed(old(store)@, record@),
{
    match record {
        WalRecord::JobSubmitted { id, queue, spec, created_at } => {
            store.insert_job(JobRecord::new(*id, queue.clone(), spec.clone(), *created_at));
        },
        WalRecord::JobLeased { id, attempt, .. } => {
            if let Some(job) = store.get_mut(*id) {
                job.state = JobState::Running;
                job.attempts = *attempt;
            }
        },
        WalRecord::JobRetryScheduled { id, .. } => {
            if let Some(job) = store.get_mut(*id) {
                job.state = JobState::RetryWaiting;
            }
        },
        WalRecord::JobCompleted { id, .. } => {
            if let Some(job) = store.get_mut(*id) {
                job.state = JobState::Completed;
            }
        },
        WalRecord::JobDead { id, .. } => {
            if let Some(job) = store.get_mut(*id) {
                job.state = JobState::Dead;
            }
        },
        WalRecord::JobCancelled { id, .. } => {
            if let Some(job) = store.get_mut(*id) {
                job.state = JobState::Cancelled;
            }
        },
    }
}

/// The records that settle the jobs that were running when the log ended: each
/// is tried again at once if an attempt is left, and is dead otherwise.
pub fn reconcile_running_jobs(
    store: &MemoryStore,
    tracker: &RecoveryTracker,
    now: UnixMillis,
) -> (records: Vec<WalRecord>)
    ensures
        forall|view: ReplayView|
            #![trigger tracker.tracks(store@, view)]
            tracker.tracks(store@, view) && view.consistent() ==> scanner::record_views(records@)
                == reconciliation(view, now.0),
{
    let mut records: Vec<WalRecord> = Vec::new();
    let total: usize = tracker.ids.len();
    let mut i: usize = 0;
    let ghost ids = tracker.ids@;
    let ghost the_view = ReplayView {
        jobs: store@,
        ids,
        order: entry_views(tracker.order@),
        leases: tracker.leases@,
        available: tracker.available@,
    };
    assert(scanner::record_views(records@) =~= settlements(the_view, ids.take(0), now.0));
    while i < total
        invariant
            i <= total == ids.len(),
            ids == tracker.ids@,
            the_view == (ReplayView {
                jobs: store@,
                ids,
                order: entry_views(tracker.order@),
                leases: tracker.leases@,
                available: tracker.available@,
            }),
            the_view.consistent() ==> scanner::record_views(records@) == settlements(
                the_view,
                ids.take(i as int),
                now.0,
            ),
        decreases total - i,
    {
        let id = JobId(tracker.ids[i]);
        let ghost before = records@;
        proof {
            assert(ids.take(i + 1).drop_last() =~= ids.take(i as int));
            assert(ids.take(i + 1).last() == id.0);
            assert(ids.contains(id.0));
            assert(the_view.consistent() ==> the_view.jobs.contains_key(id.0));
        }
        if let Some(job) = store.get(id) {
            if job.state == JobState::Running {
                if let Some(epoch) = tracker.leases.get(&id.0) {
                    let lease_id = LeaseId(*epoch);
                    let record = if job.attempts < job.spec.max_attempts {
                        WalRecord::JobRetryScheduled {
                            id,
                            lease_id,
                            attempt: job.attempts,
                            available_at: now,
                        }
                    } else {
                        WalRecord::JobDead { id, lease_id, dead_at: now }
                    };
                    let ghost settled = record@;
                    records.push(record);
                    assert(scanner::record_views(records@) =~= scanner::record_views(before).push(
                        settled,
                    ));
                }
            }
        }
        i = i + 1;
    }
    proof {
        assert(ids.take(i as int) =~= ids);
        assert forall|view: ReplayView|
            #![trigger tracker.tracks(store@, view)]
            tracker.tracks(store@, view) && view.consistent() implies scanner::record_views(
            records@,
        ) == reconciliation(view, now.0) by {
            assert(view == the_view);
        }
    }
    records
}

/// The queued jobs in the order of submission.
fn collect_queued(store: &MemoryStore, tracker: &RecoveryTracker) -> (entries: Vec<
    (QueueName, JobId),
>)
    ensures
        entry_views(entries@) == queued(entry_views(tracker.order@), store@),
{
    let mut entries: Vec<(QueueName, JobId)> = Vec::new();
    let ghost order = entry_views(tracker.order@);
    let total: usize = tracker.order.len();
    let mut i: usize = 0;
    assert(entry_views(entries@) =~= queued(order.take(0), store@));
    while i < total
        invariant
            i <= total == tracker.order@.len(),
            order == entry_views(tracker.order@),
            entry_views(entries@) == queued(order.take(i as int), store@),
        decreases total - i,
    {
        let entry = &tracker.order[i];
        let ghost before = entries@;
        assert(order.take(i + 1).drop_last() =~= order.take(i as int));
        assert(order.take(i + 1).last() == (entry.0@, entry.1.0));
        if let Some(job) = store.get(entry.1) {
            if job.state == JobState::Queued {
                entries.push((entry.0.clone(), entry.1));
                assert(entry_views(entries@) =~= entry_views(before).push((entry.0@, entry.1.0)));
            }
        }
        i = i + 1;
    }
    assert(order.take(i as int) =~= order);
    entries
}

/// The jobs that wait for a retry, in the order of submission.
fn collect_waiting(store: &MemoryStore, tracker: &RecoveryTracker) -> (retries: Vec<
    (JobId, UnixMillis),
>)
    ensures
        forall|view: ReplayView|
            #![trigger tracker.tracks(store@, view)]
            tracker.tracks(store@, view) && view.consistent() ==> retry_views(retries@) == waiting(
                view,
                view.ids,
            ),
{
    let mut retries: Vec<(JobId, UnixMillis)> = Vec::new();
    let total: usize = tracker.ids.len();
    let mut i: usize = 0;
    let ghost ids = tracker.ids@;
    let ghost the_view = ReplayView {
        jobs: store@,
        ids,
        order: entry_views(tracker.order@),
        leases: tracker.leases@,
        available: tracker.available@,
    };
    assert(retry_views(retries@) =~= waiting(the_view, ids.take(0)));
    while i < total
        invariant
            i <= total == ids.len(),
            ids == tracker.ids@,
            the_view == (ReplayView {
                jobs: store@,
                ids,
                order: entry_views(tracker.order@),
                leases: tracker.leases@,
                available: tracker.available@,
            }),
            the_view.consistent() ==> retry_views(retries@) == waiting(
                the_view,
                ids.take(i as int),
            ),
        decreases total - i,
    {
        let id = JobId(tracker.ids[i]);
        let ghost before = retries@;
        proof {
            assert(ids.take(i + 1).drop_last() =~= ids.take(i as int));
            assert(ids.take(i + 1).last() == id.0);
            assert(ids.contains(id.0));
            assert(the_view.consistent() ==> the_view.jobs.contains_key(id.0));
        }
        if let Some(job) = store.get(id) {
            if job.state == JobState::RetryWaiting {
                if let Some(millis) = tracker.available.get(&id.0) {
                    retries.push((id, UnixMillis(*millis)));
                    assert(retry_views(retries@) =~= retry_views(before).push((id.0, *millis)));
                }
            }
        }
        i = i + 1;
    }
    proof {
        assert(ids.take(i as int) =~= ids);
        assert forall|view: ReplayView|
            #![trigger tracker.tracks(store@, view)]
            tracker.tracks(store@, view) && view.consistent() implies retry_views(retries@)
            == waiting(view, view.ids) by {
            assert(view == the_view);
        }
    }
    retries
}

/// The capacity that is configured for a queue; the last one counts where a name
/// occurs more than once.
pub open spec fn capacity_of(queues: Seq<QueueConfig>, name: Seq<char>) -> Option<usize>
    decreases queues.len(),
{
    if queues.len() == 0 {
        None
    } else if queues.last().name@ == name {
        Some(queues.last().capacity)
    } else {
        capacity_of(queues.drop_last(), name)
    }
}

/// The capacity that is configured for a queue.
pub fn configured_capacity(queues: &Vec<QueueConfig>, name: &QueueName) -> (capacity: Option<usize>)
    ensures
        capacity == capacity_of(queues@, name@),
{
    let mut left: usize = queues.len();
    assert(queues@.take(left as int) =~= queues@);
    while left > 0
        invariant
            left <= queues@.len(),
            capacity_of(queues@, name@) == capacity_of(queues@.take(left as int), name@),
        decreases left,
    {
        assert(queues@.take(left as int).drop_last() =~= queues@.take(left - 1));
        assert(queues@.take(left as int).last() == queues@[left - 1]);
        left = left - 1;
        if queues[left].name.same_as(name) {
            return Some(queues[left].capacity);
        }
    }
    None
}

/// How many of the waiting retries are of jobs of the given queue.
pub open spec fn retries_in(
    retries: Seq<(u128, i64)>,
    jobs: Map<u128, JobView>,
    queue: Seq<char>,
) -> nat
    decreases retries.len(),
{
    if retries.len() == 0 {
        0
    } else {
        let id = retries.last().0;
        retries_in(retries.drop_last(), jobs, queue) + (if jobs.contains_key(id) && jobs[id].queue
            == queue {
            1nat
        } else {
            0
        })
    }
}

/// How many unfinished jobs a queue has.
pub open spec fn live(
    entries: Seq<(Seq<char>, u128)>,
    retries: Seq<(u128, i64)>,
    jobs: Map<u128, JobView>,
    queue: Seq<char>,
) -> nat {
    ids_in(entries, queue).len() + retries_in(retries, jobs, queue)
}

/// Whether every unfinished job belongs to a queue that is configured.
pub open spec fn all_configured(
    queues: Seq<QueueConfig>,
    entries: Seq<(Seq<char>, u128)>,
    retries: Seq<(u128, i64)>,
    jobs: Map<u128, JobView>,
) -> bool {
    &&& forall|i: int|
        0 <= i < entries.len() ==> capacity_of(queues, (#[trigger] entries[i]).0) is Some
    &&& forall|i: int|
        0 <= i < retries.len() ==> jobs.contains_key((#[trigger] retries[i]).0) ==> capacity_of(
            queues,
            jobs[retries[i].0].queue,
        ) is Some
}

/// Whether no queue has more unfinished jobs than it may hold.
pub open spec fn within_capacity(
    queues: Seq<QueueConfig>,
    entries: Seq<(Seq<char>, u128)>,
    retries: Seq<(u128, i64)>,
    jobs: Map<u128, JobView>,
) -> bool {
    forall|i: int|
        0 <= i < queues.len() ==> live(entries, retries, jobs, (#[trigger] queues[i]).name@)
            <= capacity_of(queues, queues[i].name@)->Some_0
}

/// Whether a fault says rightly why jobs do not fit the configured queues: it
/// names a queue that has jobs and is not configured, or, where there is none,
/// one that has more jobs than it may hold.
pub open spec fn refuses(
    fault: WalFault,
    queues: Seq<QueueConfig>,
    entries: Seq<(Seq<char>, u128)>,
    retries: Seq<(u128, i64)>,
    jobs: Map<u128, JobView>,
) -> bool {
    match fault {
        WalFault::RecoveryQueueNotFound(queue) => {
            &&& capacity_of(queues, queue) is None
            &&& live(entries, retries, jobs, queue) > 0
        },
        WalFault::RecoveryCapacityExceeded { queue, recovered, capacity } => {
            &&& all_configured(queues, entries, retries, jobs)
            &&& capacity_of(queues, queue) is Some
            &&& capacity == capacity_of(queues, queue)->Some_0
            &&& recovered == live(entries, retries, jobs, queue)
            &&& recovered > capacity
        },
        _ => false,
    }
}

/// Counts the unfinished jobs of a queue.
fn count_live(
    store: &MemoryStore,
    queued_jobs: &Vec<(QueueName, JobId)>,
    retry_jobs: &Vec<(JobId, UnixMillis)>,
    name: &QueueName,
) -> (total: usize)
    requires
        queued_jobs@.len() + retry_jobs@.len() <= usize::MAX,
    ensures
        total == live(entry_views(queued_jobs@), retry_views(retry_jobs@), store@, name@),
{
    let ghost entries = entry_views(queued_jobs@);
    let ghost retries = retry_views(retry_jobs@);
    let mut total: usize = 0;
    let mut i: usize = 0;
    let queued_len: usize = queued_jobs.len();
    let retry_len: usize = retry_jobs.len();
    while i < queued_len
        invariant
            i <= queued_len == queued_jobs@.len(),
            entries == entry_views(queued_jobs@),
            total == ids_in(entries.take(i as int), name@).len(),
            total <= i,
        decreases queued_len - i,
    {
        let entry = &queued_jobs[i];
        assert(entries.take(i + 1).drop_last() =~= entries.take(i as int));
        assert(entries.take(i + 1).last() == (entry.0@, entry.1.0));
        if entry.0.same_as(name) {
            total = total + 1;
        }
        i = i + 1;
    }
    assert(entries.take(i as int) =~= entries);
    let mut j: usize = 0;
    while j < retry_len
        invariant
            j <= retry_len == retry_jobs@.len(),
            queued_len == queued_jobs@.len(),
            queued_len + retry_len <= usize::MAX,
            retries == retry_views(retry_jobs@),
            total == ids_in(entries, name@).len() + retries_in(
                retries.take(j as int),
                store@,
                name@,
            ),
            total <= queued_len + j,
        decreases retry_len - j,
    {
        let retry = &retry_jobs[j];
        assert(retries.take(j + 1).drop_last() =~= retries.take(j as int));
        assert(retries.take(j + 1).last() == (retry.0.0, retry.1.0));
        if let Some(job) = store.get(retry.0) {
            if job.queue.same_as(name) {
                total = total + 1;
            }
        }
        j = j + 1;
    }
    assert(retries.take(j as int) =~= retries);
    total
}

/// Checks recovered jobs against the configured queues: each unfinished job must
/// belong to one of them, and none may have more than it can hold.
pub fn validate_recovered_state(
    store: &MemoryStore,
    queued_jobs: &Vec<(QueueName, JobId)>,
    retry_jobs: &Vec<(JobId, UnixMillis)>,
    config: &RuntimeConfig,
) -> (outcome: WalResult<()>)
    requires
        queued_jobs@.len() + retry_jobs@.len() <= usize::MAX,
    ensures
        ({
            let entries = entry_views(queued_jobs@);
            let retries = retry_views(retry_jobs@);
            let queues = config.queues@;
            match outcome {
                Ok(()) => all_configured(queues, entries, retries, store@) && within_capacity(
                    queues,
                    entries,
                    retries,
                    store@,
                ),
                Err(error) => refuses(error@, queues, entries, retries, store@),
            }
        }),
{
    let ghost entries = entry_views(queued_jobs@);
    let ghost retries = retry_views(retry_jobs@);
    let ghost queues = config.queues@;
    let queued_len: usize = queued_jobs.len();
    let retry_len: usize = retry_jobs.len();
    let queue_len: usize = config.queues.len();
    let mut i: usize = 0;
    while i < queued_len
        invariant
            i <= queued_len == queued_jobs@.len(),
            entries == entry_views(queued_jobs@),
            retries == retry_views(retry_jobs@),
            queues == config.queues@,
            forall|k: int|
                0 <= k < i ==> capacity_of(queues, (#[trigger] entries[k]).0) is Some,
        decreases queued_len - i,
    {
        let name = &queued_jobs[i].0;
        assert(entries[i as int].0 == name@);
        if configured_capacity(&config.queues, name).is_none() {
            proof {
                lemma_entry_is_live(entries, i as int);
            }
            return Err(WalError::RecoveryQueueNotFound(name.as_str().to_owned()));
        }
        i = i + 1;
    }
    let mut j: usize = 0;
    while j < retry_len
        invariant
            j <= retry_len == retry_jobs@.len(),
            entries == entry_views(queued_jobs@),
            retries == retry_views(retry_jobs@),
            queues == config.queues@,
            forall|k: int|
                0 <= k < j ==> store@.contains_key((#[trigger] retries[k]).0) ==> capacity_of(
                    queues,
                    store@[retries[k].0].queue,
                ) is Some,
        decreases retry_len - j,
    {
        assert(retries[j as int].0 == retry_jobs@[j as int].0.0);
        if let Some(job) = store.get(retry_jobs[j].0) {
            if configured_capacity(&config.queues, &job.queue).is_none() {
                proof {
                    lemma_retry_is_live(retries, store@, j as int);
                }
                return Err(WalError::RecoveryQueueNotFound(job.queue.as_str().to_owned()));
            }
        }
        j = j + 1;
    }
    assert(all_configured(queues, entries, retries, store@));
    let mut k: usize = 0;
    while k < queue_len
        invariant
            k <= queue_len == config.queues@.len(),
            queued_jobs@.len() + retry_jobs@.len() <= usize::MAX,
            entries == entry_views(queued_jobs@),
            retries == retry_views(retry_jobs@),
            queues == config.queues@,
            all_configured(queues, entries, retries, store@),
            forall|n: int|
                0 <= n < k ==> live(entries, retries, store@, (#[trigger] queues[n]).name@)
                    <= capacity_of(queues, queues[n].name@)->Some_0,
        decreases queue_len - k,
    {
        let name = &config.queues[k].name;
        proof {
            lemma_configured(queues, k as int);
        }
        if let Some(capacity) = configured_capacity(&config.queues, name) {
            let recovered: usize = count_live(store, queued_jobs, retry_jobs, name);
            if recovered > capacity {
                return Err(
                    WalError::RecoveryCapacityExceeded {
                        queue: name.as_str().to_owned(),
                        recovered,
                        capacity,
                    },
                );
            }
        }
        k = k + 1;
    }
    Ok(())
}

/// A configured queue has a capacity.
proof fn lemma_configured(queues: Seq<QueueConfig>, i: int)
    requires
        0 <= i < queues.len(),
    ensures
        capacity_of(queues, queues[i].name@) is Some,
    decreases queues.len(),
{
    if queues.last().name@ != queues[i].name@ {
        lemma_configured(queues.drop_last(), i);
    }
}

/// The queue of an entry has an unfinished job.
proof fn lemma_entry_is_live(entries: Seq<(Seq<char>, u128)>, i: int)
    requires
        0 <= i < entries.len(),
    ensures
        ids_in(entries, entries[i].0).len() > 0,
    decreases entries.len(),
{
    if i < entries.len() - 1 {
        lemma_entry_is_live(entries.drop_last(), i);
    }
}

/// The queue of a job that waits for a retry has an unfinished job.
proof fn lemma_retry_is_live(retries: Seq<(u128, i64)>, jobs: Map<u128, JobView>, i: int)
    requires
        0 <= i < retries.len(),
        jobs.contains_key(retries[i].0),
    ensures
        retries_in(retries, jobs, jobs[retries[i].0].queue) > 0,
    decreases retries.len(),
{
    if i < retries.len() - 1 {
        lemma_retry_is_live(retries.drop_last(), jobs, i);
    }
}

/// One record keeps a replay consistent.
proof fn lemma_step_consistent(view: ReplayView, record: RecordView)
    requires
        view.consistent(),
    ensures
        view.step(record).consistent(),
{
    let after = view.step(record);
    let id = record.job();
    if record is JobSubmitted && !view.jobs.contains_key(id) {
        assert(after.ids =~= view.ids.push(id));
        assert(!view.ids.contains(id));
        assert(after.ids[after.ids.len() - 1] == id);
        assert forall|other: u128| #[trigger]
            after.jobs.contains_key(other) implies after.ids.contains(other) by {
            if other != id {
                assert(view.ids.contains(other));
                let k = choose|k: int| 0 <= k < view.ids.len() && view.ids[k] == other;
                assert(after.ids[k] == other);
            }
        }
        assert forall|other: u128| #[trigger] after.ids.contains(other) implies
            after.jobs.contains_key(other) by {
            let k = choose|k: int| 0 <= k < after.ids.len() && after.ids[k] == other;
            if k < view.ids.len() {
                assert(view.ids.contains(view.ids[k]));
            }
        }
    }
    assert forall|other: u128| #[trigger] after.jobs.contains_key(other) implies
        after.jobs[other].id == other && (after.jobs[other].state == JobState::Running
        ==> after.leases.contains_key(other)) && (after.jobs[other].state == JobState::RetryWaiting
        ==> after.available.contains_key(other)) by {
        if other != id {
            assert(view.jobs.contains_key(other));
        }
    }
}

/// Records keep a replay consistent.
proof fn lemma_steps_consistent(view: ReplayView, records: Seq<RecordView>)
    requires
        view.consistent(),
    ensures
        view.steps(records).consistent(),
    decreases records.len(),
{
    if records.len() > 0 {
        lemma_steps_consistent(view, records.drop_last());
        lemma_step_consistent(view.steps(records.drop_last()), records.last());
    }
}

/// Every replay is consistent: each job is listed once and found under its
/// identifier, a running job has a lease, and a job that waits for its retry has
/// a time for it.
pub proof fn lemma_replay_consistent(records: Seq<RecordView>)
    ensures
        replay(records).consistent(),
{
    lemma_steps_consistent(ReplayView::start(), records);
}

/// Replaying more records goes on from where the earlier ones led.
pub proof fn lemma_steps_append(view: ReplayView, first: Seq<RecordView>, more: Seq<RecordView>)
    ensures
        view.steps(first + more) == view.steps(first).steps(more),
    decreases more.len(),
{
    if more.len() == 0 {
        assert(first + more =~= first);
    } else {
        assert((first + more).drop_last() =~= first + more.drop_last());
        lemma_steps_append(view, first, more.drop_last());
    }
}

/// Settling the first `n` jobs changes those of them that were running, and
/// nothing else.
proof fn lemma_settled(view: ReplayView, n: nat, now: i64)
    requires
        view.consistent(),
        n <= view.ids.len(),
    ensures
        ({
            let after = view.steps(settlements(view, view.ids.take(n as int), now));
            &&& after.consistent()
            &&& after.ids == view.ids
            &&& after.jobs.dom() == view.jobs.dom()
            &&& forall|id: u128| #[trigger]
                after.jobs.contains_key(id) ==> after.jobs[id] == (if view.jobs[id].state
                    == JobState::Running && view.ids.take(n as int).contains(id) {
                    store::moved(
                        view.jobs[id],
                        settlement(id, view.jobs[id], view.leases[id], now),
                    )
                } else {
                    view.jobs[id]
                })
        }),
    decreases n,
{
    let ids = view.ids.take(n as int);
    if n > 0 {
        lemma_settled(view, (n - 1) as nat, now);
        let id = ids.last();
        let earlier = view.ids.take(n - 1);
        let before = settlements(view, earlier, now);
        assert(ids.drop_last() =~= earlier);
        assert(ids =~= earlier.push(id));
        assert(ids[n - 1] == id);
        assert(!earlier.contains(id)) by {
            if earlier.contains(id) {
                let k = choose|k: int| 0 <= k < earlier.len() && earlier[k] == id;
                assert(view.ids[k] == view.ids[n - 1]);
            }
        }
        assert(view.ids.contains(view.ids[n - 1]));
        assert forall|other: u128| other != id implies (#[trigger] ids.contains(other)
            <==> earlier.contains(other)) by {
            if ids.contains(other) {
                let k = choose|k: int| 0 <= k < ids.len() && ids[k] == other;
                assert(earlier[k] == other);
            }
            if earlier.contains(other) {
                let k = choose|k: int| 0 <= k < earlier.len() && earlier[k] == other;
                assert(ids[k] == other);
            }
        }
        if view.jobs[id].state == JobState::Running {
            let record = settlement(id, view.jobs[id], view.leases[id], now);
            let mid = view.steps(before);
            assert(before.push(record).drop_last() =~= before);
            assert(view.steps(before.push(record)) == mid.step(record));
            lemma_step_consistent(mid, record);
            assert(mid.jobs.contains_key(id));
            assert(mid.step(record).jobs.dom() =~= view.jobs.dom());
        }
    } else {
        assert(ids =~= Seq::empty());
        assert(settlements(view, ids, now) =~= Seq::empty());
    }
}

/// After a log has been reconciled no job is running. Each job that was running
/// waits for another try if it has one left, due at once, and is dead otherwise;
/// its attempts are as they were, and every other job is untouched.
pub proof fn lemma_reconciled_jobs(records: Seq<RecordView>, now: i64)
    ensures
        ({
            let before = replay(records);
            let after = replay(reconciled(records, now));
            &&& after.consistent()
            &&& after.ids == before.ids
            &&& after.jobs.dom() == before.jobs.dom()
            &&& forall|id: u128| #[trigger]
                after.jobs.contains_key(id) ==> {
                    let job = before.jobs[id];
                    &&& after.jobs[id].state != JobState::Running
                    &&& after.jobs[id] == (if job.state == JobState::Running {
                        if job.attempts < job.max_attempts {
                            job.in_state(JobState::RetryWaiting)
                        } else {
                            job.in_state(JobState::Dead)
                        }
                    } else {
                        job
                    })
                }
        }),
{
    let before = replay(records);
    lemma_replay_consistent(records);
    lemma_steps_append(ReplayView::start(), records, reconciliation(before, now));
    lemma_settled(before, before.ids.len(), now);
    assert(before.ids.take(before.ids.len() as int) =~= before.ids);
    let after = replay(reconciled(records, now));
    assert forall|id: u128| #[trigger] after.jobs.contains_key(id) implies before.ids.contains(
        id,
    ) by {
        assert(before.jobs.contains_key(id));
    }
}

/// Jobs that are not running need no settling.
proof fn lemma_nothing_to_settle(view: ReplayView, ids: Seq<u128>, now: i64)
    requires
        forall|i: int| 0 <= i < ids.len() ==> view.jobs[#[trigger] ids[i]].state != JobState::Running,
    ensures
        settlements(view, ids, now) == Seq::<RecordView>::empty(),
    decreases ids.len(),
{
    if ids.len() > 0 {
        let rest = ids.drop_last();
        assert forall|i: int| 0 <= i < rest.len() implies view.jobs[#[trigger] rest[i]].state
            != JobState::Running by {
            assert(rest[i] == ids[i]);
        }
        lemma_nothing_to_settle(view, rest, now);
        assert(ids[ids.len() - 1] == ids.last());
    }
}

/// Recovering twice is recovering once: a log that was reconciled needs no
/// further record, however often and whenever it is recovered again.
pub proof fn lemma_recovery_is_idempotent(records: Seq<RecordView>, now: i64, later: i64)
    ensures
        reconciled(reconciled(records, now), later) == reconciled(records, now),
{
    let all = reconciled(records, now);
    let view = replay(all);
    lemma_reconciled_jobs(records, now);
    assert forall|i: int| 0 <= i < view.ids.len() implies view.jobs[#[trigger] view.ids[i]].state
        != JobState::Running by {
        assert(view.ids.contains(view.ids[i]));
        assert(view.jobs.contains_key(view.ids[i]));
    }
    lemma_nothing_to_settle(view, view.ids, later);
    assert(all + Seq::<RecordView>::empty() =~= all);
}

/// The first settlements settle the first jobs.
proof fn lemma_first_settlements(view: ReplayView, ids: Seq<u128>, now: i64, n: nat) -> (first: nat)
    requires
        n <= settlements(view, ids, now).len(),
    ensures
        first <= ids.len(),
        settlements(view, ids.take(first as int), now) == settlements(view, ids, now).take(n as int),
    decreases ids.len(),
{
    let all = settlements(view, ids, now);
    if n == all.len() {
        assert(ids.take(ids.len() as int) =~= ids);
        assert(all.take(n as int) =~= all);
        ids.len()
    } else {
        let rest = ids.drop_last();
        let first = lemma_first_settlements(view, rest, now, n);
        assert(rest.take(first as int) =~= ids.take(first as int));
        assert(settlements(view, rest, now).take(n as int) =~= all.take(n as int));
        first
    }
}

/// Where the first jobs have been settled, as many settlements are left as there
/// were for the others.
proof fn lemma_settlements_left(
    view: ReplayView,
    mid: ReplayView,
    first: nat,
    n: nat,
    now: i64,
    later: i64,
)
    requires
        view.ids.no_duplicates(),
        first <= n <= view.ids.len(),
        forall|i: int|
            0 <= i < first ==> mid.jobs[#[trigger] view.ids[i]].state != JobState::Running,
        forall|i: int|
            first <= i < view.ids.len() ==> mid.jobs[#[trigger] view.ids[i]].state
                == view.jobs[view.ids[i]].state,
    ensures
        settlements(mid, view.ids.take(n as int), later).len() + settlements(
            view,
            view.ids.take(first as int),
            now,
        ).len() == settlements(view, view.ids.take(n as int), now).len(),
    decreases n,
{
    let ids = view.ids.take(n as int);
    if n == first {
        lemma_nothing_to_settle(mid, ids, later);
    } else {
        lemma_settlements_left(view, mid, first, (n - 1) as nat, now, later);
        assert(ids.drop_last() =~= view.ids.take(n - 1));
        assert(ids.last() == view.ids[n - 1]);
    }
}

/// A recovery that was interrupted is made up for: where only the first of the
/// records that settle lost jobs were written, the next recovery leads to the jobs
/// that the first would have led to, with as many records in the log.
pub proof fn lemma_interrupted_settling(
    records: Seq<RecordView>,
    now: i64,
    later: i64,
    n: nat,
)
    requires
        n <= reconciliation(replay(records), now).len(),
    ensures
        ({
            let part = records + reconciliation(replay(records), now).take(n as int);
            &&& replay(reconciled(part, later)).jobs == replay(reconciled(records, now)).jobs
            &&& reconciled(part, later).len() == reconciled(records, now).len()
            &&& scanner::max_epoch(part) == scanner::max_epoch(records)
        }),
{
    let view = replay(records);
    let settled = reconciliation(view, now);
    let written = settled.take(n as int);
    let part = records + written;
    let mid = replay(part);
    let first = lemma_first_settlements(view, view.ids, now, n);
    let ids = view.ids.take(first as int);
    lemma_replay_consistent(records);
    lemma_steps_append(ReplayView::start(), records, written);
    lemma_settled(view, first, now);
    lemma_reconciled_jobs(records, now);
    lemma_reconciled_jobs(part, later);
    lemma_settlements_bring_no_lease(view, ids, now);
    lemma_max_epoch_appends(records, written);
    assert forall|i: int| 0 <= i < first implies mid.jobs[#[trigger] view.ids[i]].state
        != JobState::Running by {
        assert(ids[i] == view.ids[i]);
        assert(ids.contains(ids[i]));
        assert(view.ids.contains(view.ids[i]));
        assert(mid.jobs.contains_key(view.ids[i]));
    }
    assert forall|i: int| first <= i < view.ids.len() implies mid.jobs[#[trigger] view.ids[i]].state
        == view.jobs[view.ids[i]].state by {
        if ids.contains(view.ids[i]) {
            let k = choose|k: int| 0 <= k < ids.len() && ids[k] == view.ids[i];
            assert(view.ids[k] == view.ids[i]);
        }
        assert(view.ids.contains(view.ids[i]));
        assert(mid.jobs.contains_key(view.ids[i]));
    }
    lemma_settlements_left(view, mid, first, view.ids.len(), now, later);
    assert(view.ids.take(view.ids.len() as int) =~= view.ids);
    let after = replay(reconciled(part, later)).jobs;
    let target = replay(reconciled(records, now)).jobs;
    assert forall|id: u128| #[trigger] after.contains_key(id) implies after[id] == target[id] by {
        assert(mid.jobs.contains_key(id));
        assert(view.jobs.contains_key(id));
        assert(target.contains_key(id));
    }
    assert(after =~= target);
}

/// What keeps a log with the given records from being continued, if anything
/// does: no sequence number or no lease epoch is left.
pub open spec fn rebuild_fault(records: Seq<RecordView>, now: i64) -> Option<WalFault> {
    if records.len() >= u64::MAX {
        Some(WalFault::SequenceExhausted)
    } else if scanner::max_epoch(records) == u64::MAX {
        Some(WalFault::LeaseEpochExhausted)
    } else if reconciled(records, now).len() >= u64::MAX {
        Some(WalFault::SequenceExhausted)
    } else {
        None
    }
}

/// Rebuilds the state of the queue from the records that a scan found. Gives the
/// state and the frames of the records that settle the jobs whose workers were
/// lost, which belong behind the last frame of the log.
pub fn rebuild(scan: ScanResult, now: UnixMillis) -> (outcome: WalResult<
    (RecoveredState, Vec<u8>),
>)
    requires
        scan.last_sequence == scan.records@.len(),
        scan.max_lease_epoch == scanner::max_epoch(scanner::record_views(scan.records@)),
    ensures
        ({
            let records = scanner::record_views(scan.records@);
            match rebuild_fault(records, now.0) {
                Some(fault) => outcome matches Err(error) && error@ == fault,
                None => {
                    &&& outcome matches Ok((state, appended))
                    &&& state.rebuilt_from(reconciled(records, now.0))
                    &&& appended@ == scanner::frames(
                        reconciliation(replay(records), now.0),
                        records.len() + 1,
                    )
                },
            }
        }),
{
    let mut records = scan.records;
    let ghost views = scanner::record_views(records@);
    let first: u64 = match scan.last_sequence.checked_add(1) {
        Some(next) => next,
        None => return Err(WalError::SequenceExhausted),
    };
    let mut store = MemoryStore::new();
    let mut tracker = RecoveryTracker::new();
    replay_records(&mut store, &mut tracker, &records);
    let next_lease_epoch: u64 = match scan.max_lease_epoch.checked_add(1) {
        Some(next) => next,
        None => return Err(WalError::LeaseEpochExhausted),
    };
    let settled = reconcile_running_jobs(&store, &tracker, now);
    let ghost settlement_views = scanner::record_views(settled@);
    proof {
        lemma_replay_consistent(views);
        lemma_settlements_fit(replay(views), replay(views).ids, now.0);
        assert(ReplayView::start().steps(views) == replay(views));
    }
    if settled.len() as u128 + first as u128 > u64::MAX as u128 {
        return Err(WalError::SequenceExhausted);
    }
    let next_sequence: u64 = first + settled.len() as u64;
    let appended = encode_frames(&settled, first);
    replay_records(&mut store, &mut tracker, &settled);
    let ghost all = reconciled(views, now.0);
    proof {
        assert(settlement_views == reconciliation(replay(views), now.0));
        lemma_steps_append(ReplayView::start(), views, settlement_views);
        lemma_replay_consistent(all);
        lemma_settlements_bring_no_lease(replay(views), replay(views).ids, now.0);
        lemma_max_epoch_appends(views, settlement_views);
    }
    let mut settled = settled;
    records.append(&mut settled);
    assert(scanner::record_views(records@) =~= all);
    let counts = count_records(&records);
    Ok(
        (
            RecoveredState {
                queued_jobs: collect_queued(&store, &tracker),
                retry_jobs: collect_waiting(&store, &tracker),
                store,
                next_sequence,
                next_lease_epoch,
                submitted: counts.submitted,
                completed: counts.completed,
                dead: counts.dead,
                cancelled: counts.cancelled,
                retried: counts.retry_scheduled,
            },
            appended,
        ),
    )
}

/// Replays records, one after the other.
fn replay_records(
    store: &mut MemoryStore,
    tracker: &mut RecoveryTracker,
    records: &Vec<WalRecord>,
)
    ensures
        forall|view: ReplayView|
            #![trigger old(tracker).tracks(old(store)@, view)]
            old(tracker).tracks(old(store)@, view) ==> final(tracker).tracks(
                final(store)@,
                view.steps(scanner::record_views(records@)),
            ),
{
    let ghost views = scanner::record_views(records@);
    let total: usize = records.len();
    let mut i: usize = 0;
    assert(views.take(0) =~= Seq::empty());
    while i < total
        invariant
            i <= total == records@.len(),
            views == scanner::record_views(records@),
            forall|view: ReplayView|
                #![trigger old(tracker).tracks(old(store)@, view)]
                old(tracker).tracks(old(store)@, view) ==> tracker.tracks(
                    store@,
                    view.steps(views.take(i as int)),
                ),
        decreases total - i,
    {
        let record = &records[i];
        let ghost earlier = views.take(i as int);
        let ghost jobs = store@;
        let ghost mid = *tracker;
        assert(views.take(i + 1).drop_last() =~= earlier);
        assert(views.take(i + 1).last() == record@);
        tracker.track_record(store, record);
        apply_record_for_recovery(store, record);
        proof {
            assert forall|view: ReplayView|
                #![trigger old(tracker).tracks(old(store)@, view)]
                old(tracker).tracks(old(store)@, view) implies tracker.tracks(
                store@,
                view.steps(views.take(i + 1)),
            ) by {
                let reached = view.steps(earlier);
                assert(mid.tracks(jobs, reached));
                assert(tracker.tracks(reached.step(record@).jobs, reached.step(record@)));
                lemma_tracks_jobs(mid, jobs, reached);
            }
        }
        i = i + 1;
    }
    assert(views.take(i as int) =~= views);
}

/// A tracker that tracks a replay does so for the replay's own jobs.
proof fn lemma_tracks_jobs(tracker: RecoveryTracker, jobs: Map<u128, JobView>, view: ReplayView)
    requires
        tracker.tracks(jobs, view),
    ensures
        jobs == view.jobs,
{
}

/// The frames of records, numbered from `first`.
fn encode_frames(records: &Vec<WalRecord>, first: u64) -> (out: Vec<u8>)
    requires
        scanner::all_fit(scanner::record_views(records@)),
        first + records@.len() <= u64::MAX,
    ensures
        out@ == scanner::frames(scanner::record_views(records@), first as nat),
{
    let ghost views = scanner::record_views(records@);
    let mut out: Vec<u8> = Vec::new();
    let total: usize = records.len();
    let mut i: usize = 0;
    assert(out@ =~= scanner::frames(views.take(0), first as nat));
    while i < total
        invariant
            i <= total == records@.len(),
            views == scanner::record_views(records@),
            scanner::all_fit(views),
            first + total <= u64::MAX,
            out@ == scanner::frames(views.take(i as int), first as nat),
        decreases total - i,
    {
        let sequence: u64 = first + i as u64;
        let ghost before = out@;
        assert(views[i as int] == records@[i as int]@);
        if let Ok(frame) = WalFrame::new(sequence, records[i].clone()).encode() {
            out.extend_from_slice(frame.as_slice());
            proof {
                scanner::lemma_frames_push(views.take(i as int), views[i as int], first as nat);
                assert(views.take(i + 1) =~= views.take(i as int).push(views[i as int]));
                assert(out@ =~= before + frame@);
            }
        }
        i = i + 1;
    }
    assert(views.take(i as int) =~= views);
    out
}

/// The records that settle jobs fit a frame.
proof fn lemma_settlements_fit(view: ReplayView, ids: Seq<u128>, now: i64)
    ensures
        scanner::all_fit(settlements(view, ids, now)),
    decreases ids.len(),
{
    if ids.len() > 0 {
        lemma_settlements_fit(view, ids.drop_last(), now);
        let id = ids.last();
        record::lemma_small_payload(settlement(id, view.jobs[id], view.leases[id], now));
        let before = settlements(view, ids.drop_last(), now);
        let all = settlements(view, ids, now);
        assert forall|i: int| 0 <= i < all.len() implies (#[trigger] all[i]).payload().len()
            <= codec::MAX_RECORD_SIZE by {
            if i < before.len() {
                assert(all[i] == before[i]);
            }
        }
    }
}

/// The records that settle jobs bring in no lease.
proof fn lemma_settlements_bring_no_lease(view: ReplayView, ids: Seq<u128>, now: i64)
    ensures
        forall|i: int|
            0 <= i < settlements(view, ids, now).len() ==> scanner::leased_epoch(
                #[trigger] settlements(view, ids, now)[i],
            ) == 0,
        count(settlements(view, ids, now), 1) == 0,
        settlements(view, ids, now).len() <= ids.len(),
    decreases ids.len(),
{
    if ids.len() > 0 {
        lemma_settlements_bring_no_lease(view, ids.drop_last(), now);
        let before = settlements(view, ids.drop_last(), now);
        let all = settlements(view, ids, now);
        if all.len() > before.len() {
            assert(all.drop_last() =~= before);
        }
        assert forall|i: int| 0 <= i < all.len() implies scanner::leased_epoch(#[trigger] all[i])
            == 0 by {
            if i < before.len() {
                assert(all[i] == before[i]);
            }
        }
    }
}

/// Records without leases leave the largest epoch as it is.
proof fn lemma_max_epoch_appends(records: Seq<RecordView>, more: Seq<RecordView>)
    requires
        forall|i: int| 0 <= i < more.len() ==> scanner::leased_epoch(#[trigger] more[i]) == 0,
    ensures
        scanner::max_epoch(records + more) == scanner::max_epoch(records),
    decreases more.len(),
{
    if more.len() == 0 {
        assert(records + more =~= records);
    } else {
        let rest = more.drop_last();
        assert forall|i: int| 0 <= i < rest.len() implies scanner::leased_epoch(#[trigger] rest[i])
            == 0 by {
            assert(rest[i] == more[i]);
        }
        lemma_max_epoch_appends(records, rest);
        assert((records + more).drop_last() =~= records + rest);
        assert((records + more).last() == more[more.len() - 1]);
    }
}

/// No lease of the log has the epoch of the next one, or a later one.
pub proof fn lemma_next_epoch_is_new(records: Seq<RecordView>, i: int)
    requires
        0 <= i < records.len(),
    ensures
        scanner::leased_epoch(records[i]) <= scanner::max_epoch(records),
    decreases records.len(),
{
    if i < records.len() - 1 {
        lemma_next_epoch_is_new(records.drop_last(), i);
    }
}

/// A replay lists no more jobs than were submitted.
proof fn lemma_replay_sizes(records: Seq<RecordView>)
    ensures
        replay(records).order.len() <= count(records, 1),
        replay(records).ids.len() <= count(records, 1),
        count(records, 1) <= records.len(),
    decreases records.len(),
{
    if records.len() > 0 {
        lemma_replay_sizes(records.drop_last());
        let before = replay(records.drop_last());
        let id = records.last().job();
        lemma_without_shrinks(before.order, before.jobs[id].queue, id);
    }
}

proof fn lemma_without_shrinks(order: Seq<(Seq<char>, u128)>, queue: Seq<char>, id: u128)
    ensures
        without(order, queue, id).len() <= order.len(),
    decreases order.len(),
{
    if order.len() > 0 {
        lemma_without_shrinks(order.drop_last(), queue, id);
    }
}

proof fn lemma_collected_sizes(view: ReplayView, order: Seq<(Seq<char>, u128)>, ids: Seq<u128>)
    ensures
        queued(order, view.jobs).len() <= order.len(),
        waiting(view, ids).len() <= ids.len(),
    decreases order.len() + ids.len(),
{
    if order.len() > 0 {
        lemma_collected_sizes(view, order.drop_last(), ids);
    }
    if ids.len() > 0 {
        lemma_collected_sizes(view, order, ids.drop_last());
    }
}

proof fn lemma_count_appends(records: Seq<RecordView>, more: Seq<RecordView>, tag: u8)
    ensures
        count(records + more, tag) == count(records, tag) + count(more, tag),
    decreases more.len(),
{
    if more.len() == 0 {
        assert(records + more =~= records);
    } else {
        lemma_count_appends(records, more.drop_last(), tag);
        assert((records + more).drop_last() =~= records + more.drop_last());
    }
}

/// The contents of a log once an unfinished frame has been cut off.
pub open spec fn repaired(contents: Seq<u8>, found: ScanView) -> Seq<u8> {
    if found.truncated {
        contents.take(HEADER_SIZE + found.used as int)
    } else {
        contents
    }
}

/// The contents of a log once it has been recovered. An empty one has its header.
/// One that cannot be read is as it was. Any other has lost an unfinished frame,
/// and holds the records that settle the jobs whose workers were lost, unless no
/// lease could follow those that it holds.
pub open spec fn recovered_log(contents: Seq<u8>, now: i64) -> Seq<u8> {
    if contents.len() == 0 {
        codec::log_header()
    } else {
        match scanner::scan_log(contents) {
            Err(_) => contents,
            Ok(found) => if scanner::max_epoch(found.records) == u64::MAX {
                repaired(contents, found)
            } else {
                repaired(contents, found) + scanner::frames(
                    reconciliation(replay(found.records), now),
                    found.records.len() + 1,
                )
            },
        }
    }
}

/// Recovers the queue from its log. An empty log gets its header and holds
/// nothing. Otherwise the log must be readable; an unfinished frame at its end is
/// cut off, and the records that settle the jobs whose workers were lost are
/// written behind it. Only then are the jobs checked against the configured
/// queues.
pub fn recover(log: &mut Vec<u8>, config: &RuntimeConfig, now: UnixMillis) -> (outcome: WalResult<
    RecoveredState,
>)
    ensures
        final(log)@ == recovered_log(old(log)@, now.0),
        ({
            let contents = old(log)@;
            if contents.len() == 0 {
                outcome matches Ok(state) && state.rebuilt_from(Seq::empty())
            } else {
                match scanner::scan_log(contents) {
                    Err(fault) => outcome matches Err(error) && error@ == fault,
                    Ok(found) => if scanner::max_epoch(found.records) == u64::MAX {
                        outcome matches Err(error) && error@ == WalFault::LeaseEpochExhausted
                    } else {
                        let all = reconciled(found.records, now.0);
                        let view = replay(all);
                        let entries = queued(view.order, view.jobs);
                        let retries = waiting(view, view.ids);
                        match outcome {
                            Ok(state) => {
                                &&& state.rebuilt_from(all)
                                &&& all_configured(config.queues@, entries, retries, view.jobs)
                                &&& within_capacity(config.queues@, entries, retries, view.jobs)
                            },
                            Err(error) => refuses(
                                error@,
                                config.queues@,
                                entries,
                                retries,
                                view.jobs,
                            ),
                        }
                    },
                }
            }
        }),
{
    if log.len() == 0 {
        let mut header = WalWriter::missing_header(log.as_slice());
        log.append(&mut header);
        assert(log@ =~= codec::log_header());
        let state = RecoveredState {
            store: MemoryStore::new(),
            queued_jobs: Vec::new(),
            retry_jobs: Vec::new(),
            next_sequence: 1,
            next_lease_epoch: 1,
            submitted: 0,
            completed: 0,
            dead: 0,
            cancelled: 0,
            retried: 0,
        };
        assert(entry_views(state.queued_jobs@) =~= Seq::empty());
        assert(retry_views(state.retry_jobs@) =~= Seq::empty());
        return Ok(state);
    }
    let ghost contents = log@;
    let scan = match scan_wal(log.as_slice()) {
        Ok(scan) => scan,
        Err(error) => return Err(error),
    };
    let ghost found = scanner::scan_log(contents)->Ok_0;
    proof {
        scanner::lemma_log_size(contents);
        lemma_replay_sizes(found.records);
        lemma_settlements_bring_no_lease(replay(found.records), replay(found.records).ids, now.0);
    }
    if scan.had_truncated_tail {
        proof {
            scanner::lemma_repair_leaves_clean_log(contents);
        }
        repair_truncated_tail(log, scan.last_valid_offset);
    }
    let (state, mut appended) = match rebuild(scan, now) {
        Ok(rebuilt) => rebuilt,
        Err(error) => return Err(error),
    };
    log.append(&mut appended);
    proof {
        let all = reconciled(found.records, now.0);
        let view = replay(all);
        lemma_replay_sizes(all);
        lemma_count_appends(found.records, reconciliation(replay(found.records), now.0), 1);
        lemma_collected_sizes(view, view.order, view.ids);
        assert(entry_views(state.queued_jobs@).len() == state.queued_jobs@.len());
        assert(retry_views(state.retry_jobs@).len() == state.retry_jobs@.len());
    }
    match validate_recovered_state(&state.store, &state.queued_jobs, &state.retry_jobs, config) {
        Ok(()) => Ok(state),
        Err(error) => Err(error),
    }
}

/// The log that recovery leaves behind ends cleanly and holds the records that
/// the recovered state was rebuilt from.
pub proof fn lemma_recovered_log(contents: Seq<u8>, now: i64)
    requires
        contents.len() > 0,
        scanner::scan_log(contents) is Ok,
        scanner::max_epoch(scanner::scan_log(contents)->Ok_0.records) < u64::MAX,
        reconciled(scanner::scan_log(contents)->Ok_0.records, now).len() < u64::MAX,
    ensures
        ({
            let found = scanner::scan_log(contents)->Ok_0;
            let written = recovered_log(contents, now);
            &&& scanner::scan_log(written) is Ok
            &&& scanner::scan_log(written)->Ok_0.records == reconciled(found.records, now)
            &&& !scanner::scan_log(written)->Ok_0.truncated
        }),
{
    let found = scanner::scan_log(contents)->Ok_0;
    let settled = reconciliation(replay(found.records), now);
    if found.truncated {
        scanner::lemma_repair_leaves_clean_log(contents);
    }
    lemma_settlements_fit(replay(found.records), replay(found.records).ids, now);
    scanner::lemma_append_all_to_log(repaired(contents, found), settled);
}

/// Recovering a log that was recovered before changes nothing, however often and
/// whenever it is done.
pub proof fn lemma_recovered_log_is_settled(contents: Seq<u8>, now: i64, later: i64)
    requires
        contents.len() > 0,
        scanner::scan_log(contents) is Ok,
        scanner::max_epoch(scanner::scan_log(contents)->Ok_0.records) < u64::MAX,
        reconciled(scanner::scan_log(contents)->Ok_0.records, now).len() < u64::MAX,
    ensures
        recovered_log(recovered_log(contents, now), later) == recovered_log(contents, now),
{
    let found = scanner::scan_log(contents)->Ok_0;
    let records = found.records;
    let written = recovered_log(contents, now);
    lemma_recovered_log(contents, now);
    lemma_recovery_is_idempotent(records, now, later);
    let all = reconciled(records, now);
    lemma_settlements_bring_no_lease(replay(records), replay(records).ids, now);
    lemma_max_epoch_appends(records, reconciliation(replay(records), now));
    let more = reconciliation(replay(all), later);
    assert(all + more == all);
    assert((all + more).len() == all.len() + more.len());
    assert(more =~= Seq::empty());
    assert(scanner::frames(more, (all.len() + 1) as nat) =~= Seq::empty());
    assert(written + Seq::<u8>::empty() =~= written);
    codec::lemma_header_round_trip(Seq::empty());
    scanner::lemma_log_size(written);
    assert(written.len() > 0);
}

/// Another crash during a recovery does no harm: however much of what the recovery
/// writes has reached the log, the log can be read, and recovering it leads to the
/// jobs that the first recovery would have led to.
pub proof fn lemma_interrupted_recovery(contents: Seq<u8>, now: i64, later: i64, kept: nat)
    requires
        contents.len() > 0,
        scanner::scan_log(contents) is Ok,
        scanner::max_epoch(scanner::scan_log(contents)->Ok_0.records) < u64::MAX,
        reconciled(scanner::scan_log(contents)->Ok_0.records, now).len() < u64::MAX,
        repaired(contents, scanner::scan_log(contents)->Ok_0).len() <= kept <= recovered_log(
            contents,
            now,
        ).len(),
    ensures
        ({
            let found = scanner::scan_log(contents)->Ok_0;
            let left = recovered_log(contents, now).take(kept as int);
            let again = recovered_log(left, later);
            &&& scanner::scan_log(left) is Ok
            &&& scanner::scan_log(again) is Ok
            &&& !scanner::scan_log(again)->Ok_0.truncated
            &&& replay(scanner::scan_log(again)->Ok_0.records).jobs == replay(
                reconciled(found.records, now),
            ).jobs
        }),
{
    let found = scanner::scan_log(contents)->Ok_0;
    let view = replay(found.records);
    let settled = reconciliation(view, now);
    let clean = repaired(contents, found);
    let left = recovered_log(contents, now).take(kept as int);
    if found.truncated {
        scanner::lemma_repair_leaves_clean_log(contents);
    }
    lemma_settlements_fit(view, view.ids, now);
    let added = scanner::frames(settled, found.records.len() + 1);
    let part = (kept - clean.len()) as nat;
    let whole = scanner::lemma_cut_appends(clean, settled, part);
    assert(left =~= clean + added.take(part as int));
    lemma_interrupted_settling(found.records, now, later, whole);
    lemma_recovered_log(left, later);
}

/// Replay and live execution agree: a record that the live store accepts leaves
/// replay with the same jobs, if it had the same before. The one difference that
/// is allowed stands for a step that is not logged: a retry that came due, whose
/// job the live store has queued.
pub open spec fn agrees(live: Map<u128, JobView>, replayed: Map<u128, JobView>) -> bool {
    &&& live.dom() == replayed.dom()
    &&& forall|id: u128| #[trigger]
        live.contains_key(id) ==> live[id] == replayed[id] || (replayed[id].state
            == JobState::RetryWaiting && live[id] == replayed[id].in_state(JobState::Queued))
}

/// Whatever the live store accepts keeps it in agreement with a replay of the
/// log.
pub proof fn lemma_replay_agrees_with_live(
    live: Map<u128, JobView>,
    view: ReplayView,
    record: RecordView,
)
    requires
        agrees(live, view.jobs),
        store::apply_fault(live, record) is None,
    ensures
        agrees(store::applied(live, record), view.step(record).jobs),
{
    let after = store::applied(live, record);
    assert(after.dom() =~= view.step(record).jobs.dom());
    assert forall|id: u128| #[trigger] after.contains_key(id) implies {
        let replayed = view.step(record).jobs;
        after[id] == replayed[id] || (replayed[id].state == JobState::RetryWaiting && after[id]
            == replayed[id].in_state(JobState::Queued))
    } by {
        if id != record.job() {
            assert(live.contains_key(id));
        } else if !(record is JobSubmitted) {
            assert(live.contains_key(id));
        }
    }
}

/// A retry that comes due keeps the live store in agreement with the log.
pub proof fn lemma_due_retry_keeps_agreement(
    live: Map<u128, JobView>,
    replayed: Map<u128, JobView>,
    id: u128,
)
    requires
        agrees(live, replayed),
        live.contains_key(id),
        live[id].state == JobState::RetryWaiting,
    ensures
        agrees(live.insert(id, live[id].in_state(JobState::Queued)), replayed),
{
    let after = live.insert(id, live[id].in_state(JobState::Queued));
    assert(after.dom() =~= replayed.dom());
    assert forall|other: u128| #[trigger] after.contains_key(other) implies after[other]
        == replayed[other] || (replayed[other].state == JobState::RetryWaiting && after[other]
        == replayed[other].in_state(JobState::Queued)) by {
        assert(live.contains_key(other));
    }
}

} // verus!
