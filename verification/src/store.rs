//! The job store and the storage behind it.

use crate::error::{Error, Fault, Result};
use crate::stats;
use crate::stats::QueueStats;
use crate::types;
use crate::types::{JobId, JobRecord, JobState, JobView, QueueName};
use crate::wal::codec;
use crate::wal::error::{WalError, WalFault, WalResult};
use crate::wal::record::{RecordView, WalRecord};
use crate::wal::writer;
use crate::wal::writer::{TestableWalWriter, WalWriter};
use std::collections::hash_map::Entry;
use std::collections::HashMap;
use vstd::prelude::*;
use vstd::std_specs::iter::IteratorSpec;

verus! {

broadcast use vstd::std_specs::hash::group_hash_axioms;

/// Whether a job may go from one state to another.
pub open spec fn valid_transition(from: JobState, to: JobState) -> bool {
    match from {
        JobState::Queued => to == JobState::Running || to == JobState::Cancelled,
        JobState::Running => to == JobState::Completed || to == JobState::RetryWaiting || to
            == JobState::Dead || to == JobState::Cancelled,
        JobState::RetryWaiting => to == JobState::Queued || to == JobState::Dead || to
            == JobState::Cancelled,
        _ => false,
    }
}

/// The state that a record takes its job to.
pub open spec fn target_state(record: RecordView) -> JobState {
    match record {
        RecordView::JobSubmitted { .. } => JobState::Queued,
        RecordView::JobLeased { .. } => JobState::Running,
        RecordView::JobRetryScheduled { .. } => JobState::RetryWaiting,
        RecordView::JobCompleted { .. } => JobState::Completed,
        RecordView::JobDead { .. } => JobState::Dead,
        RecordView::JobCancelled { .. } => JobState::Cancelled,
    }
}

/// The job that a record creates, or that it makes of the job it is about.
pub open spec fn moved(job: JobView, record: RecordView) -> JobView {
    match record {
        RecordView::JobSubmitted { id, queue, payload, max_attempts, created_at } =>
            JobView::fresh(id, queue, payload, max_attempts, created_at),
        RecordView::JobLeased { attempt, .. } => JobView {
            state: JobState::Running,
            attempts: attempt,
            ..job
        },
        _ => job.in_state(target_state(record)),
    }
}

/// What keeps a record from being applied, if anything does: the job does not
/// exist, or may not go where the record takes it.
pub open spec fn apply_fault(jobs: Map<u128, JobView>, record: RecordView) -> Option<Fault> {
    if record is JobSubmitted {
        None
    } else if !jobs.contains_key(record.job()) {
        Some(Fault::JobNotFound(types::hyphenated(record.job())))
    } else if !valid_transition(jobs[record.job()].state, target_state(record)) {
        Some(
            Fault::InvalidTransition {
                from: jobs[record.job()].state,
                to: target_state(record),
            },
        )
    } else {
        None
    }
}

/// The jobs after a record has been applied.
pub open spec fn applied(jobs: Map<u128, JobView>, record: RecordView) -> Map<u128, JobView> {
    jobs.insert(record.job(), moved(jobs[record.job()], record))
}

/// The jobs of a queue.
pub open spec fn jobs_of(jobs: Map<u128, JobView>, queue: Seq<char>) -> Set<u128> {
    jobs.dom().filter(|id: u128| jobs[id].queue == queue)
}

/// The jobs of a queue that are in a state.
pub open spec fn jobs_in(jobs: Map<u128, JobView>, queue: Seq<char>, state: JobState) -> Set<u128> {
    jobs.dom().filter(|id: u128| jobs[id].queue == queue && jobs[id].state == state)
}

/// How many of the listed jobs are wanted.
pub open spec fn among(ids: Seq<u128>, wanted: spec_fn(u128) -> bool) -> nat
    decreases ids.len(),
{
    if ids.len() == 0 {
        0
    } else {
        among(ids.drop_last(), wanted) + (if wanted(ids.last()) {
            1nat
        } else {
            0
        })
    }
}

/// Counting along a list without repetitions counts the set.
pub proof fn lemma_among(ids: Seq<u128>, wanted: spec_fn(u128) -> bool)
    requires
        ids.no_duplicates(),
    ensures
        ids.to_set().filter(wanted).finite(),
        ids.to_set().filter(wanted).len() == among(ids, wanted),
    decreases ids.len(),
{
    if ids.len() == 0 {
        assert(ids.to_set().filter(wanted) =~= Set::empty());
    } else {
        let rest = ids.drop_last();
        let last = ids.last();
        assert forall|i: int, j: int| 0 <= i < rest.len() && 0 <= j < rest.len() && i
            != j implies rest[i] != rest[j] by {
            assert(rest[i] == ids[i] && rest[j] == ids[j]);
        }
        lemma_among(rest, wanted);
        assert(!rest.contains(last)) by {
            if rest.contains(last) {
                let k = choose|k: int| 0 <= k < rest.len() && rest[k] == last;
                assert(ids[k] == ids[ids.len() - 1]);
            }
        }
        assert forall|id: u128| ids.contains(id) <==> (rest.contains(id) || id == last) by {
            if ids.contains(id) {
                let k = choose|k: int| 0 <= k < ids.len() && ids[k] == id;
                if k < rest.len() {
                    assert(rest[k] == id);
                }
            }
            if rest.contains(id) {
                let k = choose|k: int| 0 <= k < rest.len() && rest[k] == id;
                assert(ids[k] == id);
            }
            assert(ids[ids.len() - 1] == last);
        }
        if wanted(last) {
            assert(ids.to_set().filter(wanted) =~= rest.to_set().filter(wanted).insert(last));
        } else {
            assert(ids.to_set().filter(wanted) =~= rest.to_set().filter(wanted));
        }
    }
}

/// The jobs of the queue, kept in memory.
pub struct MemoryStore {
    jobs: HashMap<u128, JobRecord>,
}

impl View for MemoryStore {
    type V = Map<u128, JobView>;

    closed spec fn view(&self) -> Map<u128, JobView> {
        self.jobs@.map_values(|job: JobRecord| job@)
    }
}

/// Whether every job is found under its own identifier.
pub open spec fn keyed(jobs: Map<u128, JobView>) -> bool {
    forall|id: u128| #[trigger] jobs.contains_key(id) ==> jobs[id].id == id
}

impl MemoryStore {
    /// A store without jobs.
    pub fn new() -> (store: Self)
        ensures
            store@ == Map::<u128, JobView>::empty(),
    {
        let store = MemoryStore { jobs: HashMap::new() };
        assert(store@ =~= Map::empty());
        store
    }

    /// The job of the given identifier.
    pub fn get(&self, id: JobId) -> (job: Option<&JobRecord>)
        ensures
            match job {
                Some(job) => self@.contains_key(id.0) && job@ == self@[id.0],
                None => !self@.contains_key(id.0),
            },
    {
        self.jobs.get(&id.0)
    }

    /// The job of the given identifier, to be changed in place.
    pub fn get_mut(&mut self, id: JobId) -> (job: Option<&mut JobRecord>)
        ensures
            match job {
                Some(job) => {
                    &&& old(self)@.contains_key(id.0)
                    &&& job@ == old(self)@[id.0]
                    &&& final(self)@ == old(self)@.insert(id.0, final(job)@)
                },
                None => !old(self)@.contains_key(id.0) && final(self)@ == old(self)@,
            },
    {
        let ghost before = self.jobs@;
        match self.jobs.entry(id.0) {
            Entry::Occupied(entry) => {
                let job = entry.into_mut();
                proof {
                    assert(before.insert(id.0, *final(job)).map_values(|job: JobRecord| job@)
                        =~= before.map_values(|job: JobRecord| job@).insert(id.0, final(job)@));
                }
                Some(job)
            },
            Entry::Vacant(entry) => None,
        }
    }

    /// Puts a job under its identifier, in place of any that was there.
    pub fn insert_job(&mut self, job: JobRecord)
        ensures
            final(self)@ == old(self)@.insert(job.id.0, job@),
    {
        let ghost before = self@;
        let ghost view = job@;
        let ghost id = job.id.0;
        self.jobs.insert(job.id.0, job);
        assert(self@ =~= before.insert(id, view));
    }

    /// How many jobs there are.
    pub fn len(&self) -> (len: usize)
        ensures
            len == self@.len(),
    {
        proof {
            assert(self@.dom() =~= self.jobs@.dom());
        }
        self.jobs.len()
    }

    /// A store has no more jobs than can be counted.
    pub proof fn lemma_countable(&self)
        ensures
            self@.dom().finite(),
            self@.dom().len() <= usize::MAX,
    {
        assert(self@.dom() =~= self.jobs@.dom());
        assert(self.jobs.len() == self.jobs@.len());
    }

    /// Counts the jobs of a queue, by their states.
    pub fn tally(&self, queue: &QueueName) -> (tally: QueueStats)
        ensures
            self@.dom().finite(),
            tally.submitted == stats::figure(jobs_of(self@, queue@).len()),
            tally.queued == stats::figure(jobs_in(self@, queue@, JobState::Queued).len()),
            tally.running == stats::figure(jobs_in(self@, queue@, JobState::Running).len()),
            tally.retrying == stats::figure(jobs_in(self@, queue@, JobState::RetryWaiting).len()),
            tally.completed == stats::figure(jobs_in(self@, queue@, JobState::Completed).len()),
            tally.dead == stats::figure(jobs_in(self@, queue@, JobState::Dead).len()),
            tally.cancelled == stats::figure(jobs_in(self@, queue@, JobState::Cancelled).len()),
    {
        let mut tally = QueueStats::default();
        let ghost jobs = self@;
        let ghost name = queue@;
        let ghost all = |id: u128| jobs[id].queue == name;
        let ghost of = |state: JobState|
            |id: u128| jobs[id].queue == name && jobs[id].state == state;
        let ghost keys = vstd::std_specs::hash::spec_keys_iter(&self.jobs).remaining().unref();
        assert(self@.dom() =~= self.jobs@.dom());
        for id in it: self.jobs.keys()
            invariant
                it.seq().unref() == keys,
                jobs == self@,
                name == queue@,
                all == (|id: u128| jobs[id].queue == name),
                of == (|state: JobState|
                    |id: u128| jobs[id].queue == name && jobs[id].state == state),
                forall|k: int|
                    0 <= k < keys.len() ==> #[trigger] self.jobs@.contains_key(keys[k]),
                tally.submitted == stats::figure(among(keys.take(it.index()), all)),
                tally.queued == stats::figure(among(keys.take(it.index()), of(JobState::Queued))),
                tally.running == stats::figure(
                    among(keys.take(it.index()), of(JobState::Running)),
                ),
                tally.retrying == stats::figure(
                    among(keys.take(it.index()), of(JobState::RetryWaiting)),
                ),
                tally.completed == stats::figure(
                    among(keys.take(it.index()), of(JobState::Completed)),
                ),
                tally.dead == stats::figure(among(keys.take(it.index()), of(JobState::Dead))),
                tally.cancelled == stats::figure(
                    among(keys.take(it.index()), of(JobState::Cancelled)),
                ),
        {
            let ghost k = it.index();
            proof {
                assert(keys[k] == *id);
                assert(keys.take(k + 1).drop_last() =~= keys.take(k));
                assert(keys.take(k + 1).last() == *id);
                assert(self.jobs@.contains_key(keys[k]));
            }
            if let Some(job) = self.jobs.get(id) {
                if job.queue.same_as(queue) {
                    tally.submitted = tally.submitted.saturating_add(1);
                    match job.state {
                        JobState::Queued => {
                            tally.queued = tally.queued.saturating_add(1);
                        },
                        JobState::Running => {
                            tally.running = tally.running.saturating_add(1);
                        },
                        JobState::RetryWaiting => {
                            tally.retrying = tally.retrying.saturating_add(1);
                        },
                        JobState::Completed => {
                            tally.completed = tally.completed.saturating_add(1);
                        },
                        JobState::Dead => {
                            tally.dead = tally.dead.saturating_add(1);
                        },
                        JobState::Cancelled => {
                            tally.cancelled = tally.cancelled.saturating_add(1);
                        },
                    }
                }
            }
        }
        proof {
            assert(keys.take(keys.len() as int) =~= keys);
            assert(keys.no_duplicates());
            assert(keys.to_set() == jobs.dom());
            lemma_among(keys, all);
            lemma_among(keys, of(JobState::Queued));
            lemma_among(keys, of(JobState::Running));
            lemma_among(keys, of(JobState::RetryWaiting));
            lemma_among(keys, of(JobState::Completed));
            lemma_among(keys, of(JobState::Dead));
            lemma_among(keys, of(JobState::Cancelled));
        }
        tally
    }

    /// Applies a record of the log. A record that names no job, or takes its job
    /// where it may not go, is refused and changes nothing.
    pub fn apply_record(&mut self, record: &WalRecord) -> (outcome: Result<()>)
        ensures
            match apply_fault(old(self)@, record@) {
                Some(fault) => outcome matches Err(error) && error@ == fault && final(self)@
                    == old(self)@,
                None => outcome is Ok && final(self)@ == applied(old(self)@, record@),
            },
    {
        match record {
            WalRecord::JobSubmitted { id, queue, spec, created_at } => {
                self.insert_job(JobRecord::new(*id, queue.clone(), spec.clone(), *created_at));
                Ok(())
            },
            WalRecord::JobLeased { id, attempt, .. } => self.transition(
                *id,
                JobState::Running,
                Some(*attempt),
            ),
            WalRecord::JobRetryScheduled { id, .. } => self.transition(
                *id,
                JobState::RetryWaiting,
                None,
            ),
            WalRecord::JobCompleted { id, .. } => self.transition(*id, JobState::Completed, None),
            WalRecord::JobDead { id, .. } => self.transition(*id, JobState::Dead, None),
            WalRecord::JobCancelled { id, .. } => self.transition(*id, JobState::Cancelled, None),
        }
    }

    /// Takes a job to another state, and gives it a new number of attempts where
    /// there is one.
    fn transition(&mut self, id: JobId, to: JobState, attempts: Option<u32>) -> (outcome: Result<
        (),
    >)
        ensures
            ({
                let job = old(self)@[id.0];
                if !old(self)@.contains_key(id.0) {
                    &&& outcome matches Err(error)
                    &&& error@ == Fault::JobNotFound(types::hyphenated(id.0))
                    &&& final(self)@ == old(self)@
                } else if !valid_transition(job.state, to) {
                    &&& outcome matches Err(error)
                    &&& error@ == (Fault::InvalidTransition { from: job.state, to })
                    &&& final(self)@ == old(self)@
                } else {
                    &&& outcome is Ok
                    &&& final(self)@ == old(self)@.insert(
                        id.0,
                        JobView {
                            state: to,
                            attempts: (match attempts {
                                Some(n) => n,
                                None => job.attempts,
                            }),
                            ..job
                        },
                    )
                }
            }),
    {
        let ghost before = self@;
        match self.get_mut(id) {
            None => Err(Error::JobNotFound(id.to_text())),
            Some(job) => {
                if !Self::is_valid_transition(job.state, to) {
                    let from = job.state;
                    assert(before.insert(id.0, before[id.0]) =~= before);
                    return Err(Error::InvalidTransition { from, to });
                }
                job.state = to;
                if let Some(n) = attempts {
                    job.attempts = n;
                }
                Ok(())
            },
        }
    }

    /// Takes a job whose retry is due back to its queue.
    pub fn transition_to_queued(&mut self, id: JobId) -> (outcome: Result<JobRecord>)
        ensures
            ({
                let job = old(self)@[id.0];
                if !old(self)@.contains_key(id.0) {
                    &&& outcome matches Err(error)
                    &&& error@ == Fault::JobNotFound(types::hyphenated(id.0))
                    &&& final(self)@ == old(self)@
                } else if job.state != JobState::RetryWaiting {
                    &&& outcome matches Err(error)
                    &&& error@ == (Fault::InvalidTransition {
                        from: job.state,
                        to: JobState::Queued,
                    })
                    &&& final(self)@ == old(self)@
                } else {
                    &&& outcome matches Ok(record)
                    &&& record@ == job.in_state(JobState::Queued)
                    &&& final(self)@ == old(self)@.insert(id.0, job.in_state(JobState::Queued))
                }
            }),
    {
        match self.transition(id, JobState::Queued, None) {
            Err(error) => Err(error),
            Ok(()) => match self.get(id) {
                Some(job) => Ok(job.clone()),
                None => Err(Error::JobNotFound(id.to_text())),
            },
        }
    }

    /// Whether a job may go from one state to another.
    pub fn is_valid_transition(from: JobState, to: JobState) -> (valid: bool)
        ensures
            valid == valid_transition(from, to),
    {
        match (from, to) {
            (JobState::Queued, JobState::Running) => true,
            (JobState::Queued, JobState::Cancelled) => true,
            (JobState::Running, JobState::Completed) => true,
            (JobState::Running, JobState::RetryWaiting) => true,
            (JobState::Running, JobState::Dead) => true,
            (JobState::Running, JobState::Cancelled) => true,
            (JobState::RetryWaiting, JobState::Queued) => true,
            (JobState::RetryWaiting, JobState::Dead) => true,
            (JobState::RetryWaiting, JobState::Cancelled) => true,
            _ => false,
        }
    }
}

impl Default for MemoryStore {
    fn default() -> (store: Self)
        ensures
            store@ == Map::<u128, JobView>::empty(),
    {
        MemoryStore::new()
    }
}

/// Where a job may go from where it is: to a worker from its queue, back to its
/// queue from waiting for a retry, to a retry or to success from a worker, to its
/// death from a worker or from waiting, and to being cancelled until it has ended.
/// The states that it never leaves are those in which it has ended.
pub proof fn lemma_life_of_a_job(from: JobState)
    ensures
        valid_transition(from, JobState::Running) <==> from == JobState::Queued,
        valid_transition(from, JobState::Queued) <==> from == JobState::RetryWaiting,
        valid_transition(from, JobState::RetryWaiting) <==> from == JobState::Running,
        valid_transition(from, JobState::Completed) <==> from == JobState::Running,
        valid_transition(from, JobState::Dead) <==> from == JobState::Running || from
            == JobState::RetryWaiting,
        valid_transition(from, JobState::Cancelled) <==> !from.terminal(),
        from.terminal() <==> (forall|to: JobState| !valid_transition(from, to)),
        from.terminal() <==> from != JobState::Queued && from != JobState::Running && from
            != JobState::RetryWaiting,
{
    assert(valid_transition(JobState::Queued, JobState::Cancelled));
    assert(valid_transition(JobState::Running, JobState::Cancelled));
    assert(valid_transition(JobState::RetryWaiting, JobState::Cancelled));
}

/// What records do: a submission creates a queued job with no attempt made, a lease
/// hands the job to a worker and sets its attempts, and every other record leaves
/// the attempts as they are.
pub proof fn lemma_records_do_what_they_say(jobs: Map<u128, JobView>, record: RecordView)
    ensures
        ({
            let id = record.job();
            let before = jobs[id];
            let job = applied(jobs, record)[id];
            &&& applied(jobs, record).contains_key(id)
            &&& record is JobSubmitted ==> {
                &&& job.id == record->JobSubmitted_id == id
                &&& job.queue == record->JobSubmitted_queue
                &&& job.payload == record->JobSubmitted_payload
                &&& job.max_attempts == record->JobSubmitted_max_attempts
                &&& job.created_at == record->JobSubmitted_created_at
                &&& job.state == JobState::Queued
                &&& job.attempts == 0
            }
            &&& record is JobLeased ==> id == record->JobLeased_id && job.state
                == JobState::Running && job.attempts == record->JobLeased_attempt
            &&& !(record is JobSubmitted || record is JobLeased) ==> job.attempts
                == before.attempts
            &&& record is JobRetryScheduled ==> id == record->JobRetryScheduled_id && job.state
                == JobState::RetryWaiting
            &&& record is JobCompleted ==> id == record->JobCompleted_id && job.state
                == JobState::Completed
            &&& record is JobDead ==> id == record->JobDead_id && job.state == JobState::Dead
            &&& record is JobCancelled ==> id == record->JobCancelled_id && job.state
                == JobState::Cancelled
        }),
{
}

/// What records are refused for: a submission for nothing, any other where it names
/// no job, and else where the job may not go to the state that the record leads to.
pub proof fn lemma_records_are_judged(jobs: Map<u128, JobView>, record: RecordView)
    ensures
        ({
            let id = record.job();
            let refused = apply_fault(jobs, record);
            let led = applied(jobs, record)[id].state;
            &&& record is JobSubmitted ==> refused is None
            &&& !(record is JobSubmitted) && !jobs.contains_key(id) ==> refused == Some(
                Fault::JobNotFound(types::hyphenated(id)),
            )
            &&& !(record is JobSubmitted) && jobs.contains_key(id) ==> {
                &&& refused is None <==> valid_transition(jobs[id].state, led)
                &&& refused is Some ==> refused == Some(
                    Fault::InvalidTransition { from: jobs[id].state, to: led },
                )
            }
        }),
{
}

/// A job that has ended never changes again: no record but a submission under
/// the same identifier can be applied to it.
pub proof fn lemma_terminal_is_final(jobs: Map<u128, JobView>, record: RecordView)
    requires
        jobs.contains_key(record.job()),
        jobs[record.job()].state.terminal(),
        !(record is JobSubmitted),
    ensures
        apply_fault(jobs, record) == Some(
            Fault::InvalidTransition {
                from: jobs[record.job()].state,
                to: target_state(record),
            },
        ),
{
}

/// Applying a record touches no other job, and what was submitted (queue,
/// payload, limit and time) never changes.
pub proof fn lemma_apply_touches_one_job(jobs: Map<u128, JobView>, record: RecordView, other: u128)
    requires
        apply_fault(jobs, record) is None,
    ensures
        other != record.job() ==> (applied(jobs, record).contains_key(other) <==> jobs.contains_key(
            other,
        )) && applied(jobs, record)[other] == jobs[other],
        !(record is JobSubmitted) ==> ({
            let old_job = jobs[record.job()];
            let new_job = applied(jobs, record)[record.job()];
            &&& new_job.id == old_job.id
            &&& new_job.queue == old_job.queue
            &&& new_job.payload == old_job.payload
            &&& new_job.max_attempts == old_job.max_attempts
            &&& new_job.created_at == old_job.created_at
        }),
        keyed(jobs) ==> keyed(applied(jobs, record)),
{
}

/// A path in the file system. It is carried to the program around the library and
/// never looked into.
#[verifier::external_type_specification]
#[verifier::external_body]
pub struct ExPathBuf(std::path::PathBuf);

/// `PathBuf::clone` gives a duplicate of the path.
pub assume_specification[ <std::path::PathBuf as Clone>::clone ](
    path: &std::path::PathBuf,
) -> (copy: std::path::PathBuf)
    ensures
        copy == *path,
;

/// Where records are kept.
#[derive(Debug, PartialEq, Eq)]
pub enum StorageConfig {
    /// Nowhere: a restart loses everything.
    Memory,
    /// In a log in the given directory.
    Wal { path: std::path::PathBuf },
}

impl Clone for StorageConfig {
    fn clone(&self) -> (copy: Self)
        ensures
            copy == *self,
    {
        match self {
            StorageConfig::Memory => StorageConfig::Memory,
            StorageConfig::Wal { path } => StorageConfig::Wal { path: path.clone() },
        }
    }
}

impl Default for StorageConfig {
    fn default() -> (config: Self)
        ensures
            config == StorageConfig::Memory,
    {
        StorageConfig::Memory
    }
}

/// The storage of a running queue.
#[derive(Debug)]
pub enum Storage {
    Memory,
    Wal(WalWriter),
}

impl Storage {
    /// Opens the storage that a configuration names, over the contents of the
    /// log file where there is one.
    pub fn open(config: &StorageConfig, contents: &[u8]) -> (storage: WalResult<Self>)
        ensures
            match config {
                StorageConfig::Memory => storage matches Ok(Storage::Memory),
                StorageConfig::Wal { .. } => match writer::next_sequence(contents@) {
                    Ok(next) => storage matches Ok(Storage::Wal(w)) && w.next() == next,
                    Err(fault) => storage matches Err(error) && error@ == fault,
                },
            },
    {
        match config {
            StorageConfig::Memory => Ok(Storage::Memory),
            StorageConfig::Wal { .. } => match WalWriter::open(contents) {
                Ok(writer) => Ok(Storage::Wal(writer)),
                Err(error) => Err(error),
            },
        }
    }

    /// Whether records survive a restart.
    pub fn is_durable(&self) -> (durable: bool)
        ensures
            durable == (self is Wal),
    {
        matches!(self, Storage::Wal(_))
    }

    /// The bytes that must reach the disk before a record may be applied; `None`
    /// where nothing is kept.
    pub fn persist(&self, record: &WalRecord) -> (out: WalResult<Option<Vec<u8>>>)
        ensures
            match *self {
                Storage::Memory => out matches Ok(None),
                Storage::Wal(w) => match writer::append_fault(w.next(), record@) {
                    Some(fault) => out matches Err(error) && error@ == fault,
                    None => out matches Ok(Some(frame)) && frame@ == writer::appended(
                        w.next(),
                        record@,
                    ),
                },
            },
    {
        match self {
            Storage::Memory => Ok(None),
            Storage::Wal(writer) => match writer.append(record) {
                Ok(frame) => Ok(Some(frame)),
                Err(error) => Err(error),
            },
        }
    }

    /// Takes note of how writing a record and forcing it to disk went. Gives its
    /// sequence number where there is a log.
    pub fn acknowledge(&mut self, outcome: std::result::Result<(), String>) -> (seq: WalResult<
        Option<u64>,
    >)
        requires
            *old(self) matches Storage::Wal(w) ==> w.next() < u64::MAX,
        ensures
            match *old(self) {
                Storage::Memory => seq == Ok::<Option<u64>, WalError>(None) && *final(self)
                    == Storage::Memory,
                Storage::Wal(before) => {
                    &&& *final(self) matches Storage::Wal(w)
                    &&& match outcome {
                        Ok(_) => seq == Ok::<Option<u64>, WalError>(Some(before.next()))
                            && w.next() == before.next() + 1,
                        Err(text) => seq matches Err(error) && error@ == WalFault::Io(text@)
                            && w.next() == before.next(),
                    }
                },
            },
    {
        match self {
            Storage::Memory => Ok(None),
            Storage::Wal(writer) => match writer.acknowledge(outcome) {
                Ok(seq) => Ok(Some(seq)),
                Err(error) => Err(error),
            },
        }
    }
}

/// Storage whose writes can be made to fail.
#[derive(Debug)]
pub enum TestableStorage {
    Memory,
    Wal(TestableWalWriter),
}

impl TestableStorage {
    /// Opens the storage that a configuration names, over the given contents of
    /// a log.
    pub fn open(config: &StorageConfig, contents: Vec<u8>) -> (storage: WalResult<Self>)
        ensures
            match config {
                StorageConfig::Memory => storage matches Ok(TestableStorage::Memory),
                StorageConfig::Wal { .. } => match writer::next_sequence(contents@) {
                    Ok(next) => {
                        &&& storage matches Ok(TestableStorage::Wal(w))
                        &&& w.next() == next
                        &&& w.log() == (if contents@.len() == 0 {
                            codec::log_header()
                        } else {
                            contents@
                        })
                        &&& !w.append_fails()
                        &&& !w.sync_fails()
                    },
                    Err(fault) => storage matches Err(error) && error@ == fault,
                },
            },
    {
        match config {
            StorageConfig::Memory => Ok(TestableStorage::Memory),
            StorageConfig::Wal { .. } => match TestableWalWriter::open(contents) {
                Ok(writer) => Ok(TestableStorage::Wal(writer)),
                Err(error) => Err(error),
            },
        }
    }

    /// Whether records survive a restart.
    pub fn is_durable(&self) -> (durable: bool)
        ensures
            durable == (self is Wal),
    {
        matches!(self, TestableStorage::Wal(_))
    }

    /// Persists a record. Gives its sequence number where there is a log.
    pub fn persist(&mut self, record: WalRecord) -> (seq: WalResult<Option<u64>>)
        ensures
            match *old(self) {
                TestableStorage::Memory => seq == Ok::<Option<u64>, WalError>(None) && *final(self)
                    == TestableStorage::Memory,
                TestableStorage::Wal(before) => {
                    &&& *final(self) matches TestableStorage::Wal(w)
                    &&& ({
                        let fault = writer::append_fault(before.next(), record@);
                        if before.append_fails() {
                            &&& seq matches Err(error)
                            &&& error@ == WalFault::Io(
                                "injected append failure"@,
                            )
                            &&& w.log() == before.log()
                            &&& w.next() == before.next()
                            &&& !w.append_fails()
                            &&& w.sync_fails() == before.sync_fails()
                        } else if fault is Some {
                            &&& seq matches Err(error)
                            &&& error@ == fault->Some_0
                            &&& w == before
                        } else {
                            &&& w.log() == before.log() + writer::appended(before.next(), record@)
                            &&& !w.append_fails()
                            &&& !w.sync_fails()
                            &&& if before.sync_fails() {
                                &&& seq matches Err(error)
                                &&& error@ == WalFault::SyncFailed
                                &&& w.next() == before.next()
                            } else {
                                &&& seq == Ok::<Option<u64>, WalError>(Some(before.next()))
                                &&& w.next() == before.next() + 1
                            }
                        }
                    })
                },
            },
    {
        match self {
            TestableStorage::Memory => Ok(None),
            TestableStorage::Wal(writer) => match writer.append(record) {
                Ok(seq) => Ok(Some(seq)),
                Err(error) => Err(error),
            },
        }
    }

    /// Makes the next write fail, where there is a log.
    pub fn fail_next_append(&mut self)
        ensures
            match *old(self) {
                TestableStorage::Memory => *final(self) == TestableStorage::Memory,
                TestableStorage::Wal(before) => {
                    &&& *final(self) matches TestableStorage::Wal(w)
                    &&& w.append_fails()
                    &&& w.sync_fails() == before.sync_fails()
                    &&& w.log() == before.log()
                    &&& w.next() == before.next()
                },
            },
    {
        if let TestableStorage::Wal(writer) = self {
            writer.fail_next_append();
        }
    }

    /// Makes forcing the next write to disk fail, where there is a log.
    pub fn fail_next_sync(&mut self)
        ensures
            match *old(self) {
                TestableStorage::Memory => *final(self) == TestableStorage::Memory,
                TestableStorage::Wal(before) => {
                    &&& *final(self) matches TestableStorage::Wal(w)
                    &&& w.sync_fails()
                    &&& w.append_fails() == before.append_fails()
                    &&& w.log() == before.log()
                    &&& w.next() == before.next()
                },
            },
    {
        if let TestableStorage::Wal(writer) = self {
            writer.fail_next_sync();
        }
    }
}

} // verus!
