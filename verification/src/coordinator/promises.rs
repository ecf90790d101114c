//! What the queue promises to those who use it.

use crate::config;
use crate::config::{Jitter, RetryConfig};
use crate::coordinator::laws;
use crate::coordinator::model;
use crate::coordinator::model::{Clock, CoordinatorView, WorkerOutcome};
use crate::coordinator::state::Coordinator;
use crate::coordinator::restore;
use crate::recovery;
use crate::recovery::{RecoveredState, ReplayView};
use crate::store;
use crate::types::{JobState, JobView};
use crate::wal::codec;
use crate::wal::codec::{FrameView, HEADER_SIZE};
use crate::wal::record::RecordView;
use crate::wal::scanner;
use vstd::prelude::*;

verus! {

/// How many turns a queue is away from being served.
pub open spec fn turns_until(cursor: nat, queue: int, n: nat) -> int {
    if queue >= cursor {
        queue - cursor
    } else {
        queue + n - cursor
    }
}

/// Queues take turns: every lease that goes to another queue brings a queue with
/// ready jobs nearer to its own, so that it is served after fewer leases than
/// there are queues.
pub proof fn lemma_queues_take_turns(
    view: CoordinatorView,
    record: RecordView,
    clock: Clock,
    queue: int,
)
    requires
        view.well_formed(),
        view.admits(record),
        record is JobLeased,
        0 <= queue < view.queues.len(),
        view.queues[queue].ready.len() > 0,
    ensures
        0 <= turns_until(view.cursor, queue, view.queues.len()) < view.queues.len(),
        record.job() == view.queues[queue].ready[0] || turns_until(
            view.after(record, clock).cursor,
            queue,
            view.queues.len(),
        ) < turns_until(view.cursor, queue, view.queues.len()),
{
    let n = view.queues.len();
    laws::lemma_next_queue(view.queues, view.cursor, 0);
    let i = model::next_queue(view.queues, view.cursor, 0)->Some_0;
    let k = choose|k: int|
        {
            &&& 0 <= k < n
            &&& i == #[trigger] model::wrap(view.cursor + k, n)
            &&& forall|l: int|
                0 <= l < k ==> (#[trigger] view.queues[model::wrap(
                    view.cursor + l,
                    n,
                )]).ready.len() == 0
        };
    let d = turns_until(view.cursor, queue, n);
    assert(model::wrap(view.cursor + d, n) == queue);
    assert(d >= k) by {
        if d < k {
            assert(view.queues[model::wrap(view.cursor + d, n)].ready.len() == 0);
        }
    }
}

/// Within a queue, first come is first served: a lease takes the first job of one
/// queue and moves those behind it up by one; every other queue stays as it is.
pub proof fn lemma_first_come_first_served(
    view: CoordinatorView,
    record: RecordView,
    clock: Clock,
    queue: int,
    position: int,
)
    requires
        view.well_formed(),
        view.admits(record),
        record is JobLeased,
        0 <= queue < view.queues.len(),
        0 <= position < view.queues[queue].ready.len(),
    ensures
        ({
            let id = view.queues[queue].ready[position];
            let after = view.after(record, clock).queues[queue].ready;
            if record.job() == view.queues[queue].ready[0] {
                position > 0 ==> after[position - 1] == id
            } else {
                after[position] == id
            }
        }),
{
    laws::lemma_lease_keeps_order(view, record, clock);
    let i = model::next_queue(view.queues, view.cursor, 0)->Some_0;
    if i != queue && record.job() == view.queues[queue].ready[0] {
        assert(view.queues[i].ready[0] == record.job());
        assert(view.jobs[view.queues[queue].ready[0]].queue == view.queues[queue].name);
        assert(view.queues[i].name == view.queues[queue].name);
    }
}

/// A lease is new: no lease that was given out before is one that its job has
/// now, so that whatever an earlier worker reports is stale.
pub proof fn lemma_earlier_leases_are_stale(
    view: CoordinatorView,
    record: RecordView,
    clock: Clock,
    earlier: u64,
)
    requires
        view.well_formed(),
        view.admits(record),
        record is JobLeased,
        earlier < view.next_lease_epoch,
    ensures
        view.after(record, clock).holds_lease(record.job(), record->JobLeased_lease_id),
        !view.after(record, clock).holds_lease(record.job(), earlier),
        view.after(record, clock).next_lease_epoch > record->JobLeased_lease_id,
{
    let after = view.after(record, clock);
    laws::lemma_lease_keeps_order(view, record, clock);
    let at = view.leases.len() as int;
    assert(after.leases[at].job == record.job());
    laws::lemma_lease_found(after, record.job(), at);
}

/// A job that has lost its lease, by its end, a retry or a cancellation, answers
/// to none: whatever its worker still reports is stale.
pub proof fn lemma_late_outcomes_are_stale(
    view: CoordinatorView,
    record: RecordView,
    clock: Clock,
    lease_id: u64,
)
    requires
        view.well_formed(),
        view.admits(record),
        !(record is JobSubmitted),
        !(record is JobLeased),
    ensures
        !view.after(record, clock).holds_lease(record.job(), lease_id),
{
    let after = view.after(record, clock);
    let id = record.job();
    match record {
        RecordView::JobRetryScheduled { .. } => {
            laws::lemma_failure_keeps_order(view, record, clock);
        },
        RecordView::JobCancelled { .. } => {
            laws::lemma_cancellation_keeps_order(view, record, clock);
        },
        _ => {
            laws::lemma_end_keeps_order(view, record, clock);
        },
    }
    if model::leased(after.leases, id) {
        let k = model::lease_index(after.leases, id);
        assert(after.leases[k].job == id);
        assert(after.jobs[id].state == JobState::Running);
    }
}

/// The unfinished jobs of a queue, each of which takes up a place in it.
pub open spec fn unfinished(jobs: Map<u128, JobView>, queue: Seq<char>) -> Set<u128> {
    jobs.dom().filter(|id: u128| jobs[id].queue == queue && !jobs[id].state.terminal())
}

/// Places are taken and given back one at a time: a submission takes one in its
/// queue, the end of a job gives its own back, and nothing else takes or gives
/// any.
pub proof fn lemma_places(
    view: CoordinatorView,
    record: RecordView,
    clock: Clock,
    queue: Seq<char>,
)
    requires
        view.well_formed(),
        view.admits(record),
    ensures
        ({
            let before = unfinished(view.jobs, queue);
            let after = unfinished(view.after(record, clock).jobs, queue);
            let job = view.after(record, clock).jobs[record.job()];
            if job.queue != queue {
                after == before
            } else if record is JobSubmitted {
                after.len() == before.len() + 1
            } else if job.state.terminal() {
                after.len() == before.len() - 1
            } else {
                after == before
            }
        }),
{
    let before = unfinished(view.jobs, queue);
    let next = view.after(record, clock);
    let after = unfinished(next.jobs, queue);
    let id = record.job();
    lemma_admitted_job(view, record, clock);
    assert(before.finite());
    if next.jobs[id].queue != queue {
        assert(after =~= before);
    } else if record is JobSubmitted {
        assert(!before.contains(id));
        assert(after =~= before.insert(id));
    } else if next.jobs[id].state.terminal() {
        assert(before.contains(id));
        assert(after =~= before.remove(id));
    } else {
        assert(after =~= before);
    }
}

/// An admitted record is one that the store accepts, and it takes an unfinished
/// job.
pub proof fn lemma_admitted_job(view: CoordinatorView, record: RecordView, clock: Clock)
    requires
        view.well_formed(),
        view.admits(record),
    ensures
        view.after(record, clock).well_formed(),
        store::apply_fault(view.jobs, record) is None,
        view.after(record, clock).jobs == store::applied(view.jobs, record),
        !(record is JobSubmitted) ==> view.jobs.contains_key(record.job())
            && !view.jobs[record.job()].state.terminal(),
{
    match record {
        RecordView::JobSubmitted { .. } => {
            laws::lemma_submission_keeps_order(view, record, clock);
        },
        RecordView::JobLeased { .. } => {
            laws::lemma_lease_keeps_order(view, record, clock);
        },
        RecordView::JobRetryScheduled { .. } => {
            laws::lemma_failure_keeps_order(view, record, clock);
        },
        RecordView::JobCompleted { .. } => {
            laws::lemma_end_keeps_order(view, record, clock);
        },
        RecordView::JobDead { .. } => {
            laws::lemma_end_keeps_order(view, record, clock);
        },
        RecordView::JobCancelled { .. } => {
            laws::lemma_cancellation_keeps_order(view, record, clock);
        },
    }
}

/// A retry waits no longer than the largest delay, with jitter or without.
pub proof fn lemma_delay_is_bounded(retry: RetryConfig, attempt: u32, sample: u32)
    ensures
        retry_delay_exact(retry, attempt, sample),
        model::retry_delay(retry, attempt, sample) <= retry.max_delay,
{
    let delay = config::backoff(
        retry.base_delay as nat,
        retry.max_delay as nat,
        attempt as nat,
    );
    let d = u32::MAX as int;
    assert(0 <= (delay * sample) / d <= delay) by (nonlinear_arith)
        requires
            0 <= sample <= d,
            d == 0xffff_ffff,
            0 <= delay,
    ;
}

/// The delay is what it is computed to be, with nothing cut off.
pub open spec fn retry_delay_exact(retry: RetryConfig, attempt: u32, sample: u32) -> bool {
    let delay = config::backoff(
        retry.base_delay as nat,
        retry.max_delay as nat,
        attempt as nat,
    );
    model::retry_delay(retry, attempt, sample) == (if retry.jitter == Jitter::Off {
        delay as int
    } else {
        (delay * sample) / (u32::MAX as int)
    })
}

/// A retry comes when its delay has passed, to the next whole millisecond and so
/// exactly where the delay is of whole milliseconds, unless a clock has no moment
/// that lies so far ahead.
pub proof fn lemma_retry_is_not_early(clock: Clock, delay: u128)
    requires
        model::wall_after(clock.wall.0, delay) < i64::MAX,
        model::monotonic(clock, model::wall_after(clock.wall.0, delay)) < u128::MAX,
    ensures
        model::monotonic(clock, model::wall_after(clock.wall.0, delay)) >= clock.now + delay,
        model::monotonic(clock, model::wall_after(clock.wall.0, delay)) < clock.now + delay
            + model::MILLISECOND,
        delay % model::MILLISECOND == 0 ==> model::monotonic(
            clock,
            model::wall_after(clock.wall.0, delay),
        ) == clock.now + delay,
{
    let millis = (delay + 999_999) / 1_000_000;
    assert(millis * 1_000_000 >= delay);
    assert(millis * 1_000_000 < delay + 1_000_000);
}

/// A job whose retry is not due keeps waiting for it, whatever retries are taken.
pub proof fn lemma_retry_waits_for_its_time(view: CoordinatorView, now: u128, id: u128)
    requires
        view.well_formed(),
        view.jobs.contains_key(id),
        view.jobs[id].state == JobState::RetryWaiting,
        forall|k: int|
            0 <= k < view.retries.len() && (#[trigger] view.retries[k]).job == id
                ==> view.retries[k].available_at > now,
    ensures
        view.after_due_retries(now).jobs.contains_key(id),
        view.after_due_retries(now).jobs[id] == view.jobs[id],
    decreases view.retries.len(),
{
    if view.retries.len() > 0 && view.retries[0].available_at <= now {
        let next = view.after_retry();
        laws::lemma_retry_keeps_order(view);
        assert(view.retries[0].job != id);
        assert forall|k: int|
            0 <= k < next.retries.len() && (#[trigger] next.retries[k]).job
                == id implies next.retries[k].available_at > now by {
            assert(next.retries[k] == view.retries[k + 1]);
        }
        lemma_retry_waits_for_its_time(next, now, id);
    }
}

/// Once due retries have been taken none is left, and no job waits for one that
/// was due: each of them is queued.
pub proof fn lemma_due_retries_are_taken(view: CoordinatorView, now: u128, id: u128)
    requires
        view.well_formed(),
        view.jobs.contains_key(id),
        view.jobs[id].state == JobState::RetryWaiting,
        exists|k: int|
            0 <= k < view.retries.len() && (#[trigger] view.retries[k]).job == id
                && view.retries[k].available_at <= now,
    ensures
        view.after_due_retries(now).jobs.contains_key(id),
        view.after_due_retries(now).jobs[id] == view.jobs[id].in_state(JobState::Queued),
    decreases view.retries.len(),
{
    let at = choose|k: int|
        0 <= k < view.retries.len() && (#[trigger] view.retries[k]).job == id
            && view.retries[k].available_at <= now;
    if at > 0 {
        assert(view.retries[0].available_at <= view.retries[at].available_at);
        assert(view.retries[0].job != id);
    }
    let next = view.after_retry();
    laws::lemma_retry_keeps_order(view);
    if at > 0 {
        assert(next.retries[at - 1] == view.retries[at]);
        lemma_due_retries_are_taken(next, now, id);
    } else {
        lemma_queued_stays_queued(next, now, id);
    }
}

/// Taking retries does not touch a job that waits for none.
proof fn lemma_queued_stays_queued(view: CoordinatorView, now: u128, id: u128)
    requires
        view.well_formed(),
        view.jobs.contains_key(id),
        view.jobs[id].state != JobState::RetryWaiting,
    ensures
        view.after_due_retries(now).jobs.contains_key(id),
        view.after_due_retries(now).jobs[id] == view.jobs[id],
    decreases view.retries.len(),
{
    if view.retries.len() > 0 && view.retries[0].available_at <= now {
        laws::lemma_retry_keeps_order(view);
        lemma_queued_stays_queued(view.after_retry(), now, id);
    }
}

/// How often a job may be run: as often as it allows, and once in any case.
pub open spec fn allowed(job: JobView) -> int {
    if job.max_attempts == 0 {
        1
    } else {
        job.max_attempts as int
    }
}

/// Whether no job has been run more often than it may, and whether each that is
/// to run again may.
pub open spec fn attempts_bounded(jobs: Map<u128, JobView>) -> bool {
    forall|id: u128| #[trigger]
        jobs.contains_key(id) ==> {
            let job = jobs[id];
            &&& job.attempts <= allowed(job)
            &&& job.state == JobState::Queued || job.state == JobState::RetryWaiting
                ==> job.attempts < allowed(job)
        }
}

/// No job is ever run more often than it allows: submissions, leases, outcomes,
/// timeouts and cancellations keep to it.
pub proof fn lemma_attempts_stay_bounded(
    view: CoordinatorView,
    record: RecordView,
    clock: Clock,
    outcome: WorkerOutcome,
    sample: u32,
)
    requires
        view.well_formed(),
        view.admits(record),
        attempts_bounded(view.jobs),
        match record {
            RecordView::JobSubmitted { .. } => true,
            RecordView::JobLeased { leased_at, .. } => record == Coordinator::next_lease(
                view,
                leased_at,
            ),
            RecordView::JobRetryScheduled { id, lease_id, .. } => record == view.verdict(
                id,
                lease_id,
                outcome,
                clock.wall.0,
                sample,
            ),
            _ => true,
        },
    ensures
        attempts_bounded(view.after(record, clock).jobs),
{
    let after = view.after(record, clock);
    lemma_admitted_job(view, record, clock);
    if record is JobLeased {
        laws::lemma_lease_keeps_order(view, record, clock);
        let i = model::next_queue(view.queues, view.cursor, 0)->Some_0;
        assert(view.queues[i].ready[0] == record.job());
        assert(view.jobs[record.job()].state == JobState::Queued);
    }
    assert forall|id: u128| #[trigger] after.jobs.contains_key(id) implies {
        let job = after.jobs[id];
        &&& job.attempts <= allowed(job)
        &&& job.state == JobState::Queued || job.state == JobState::RetryWaiting ==> job.attempts
            < allowed(job)
    } by {
        if id != record.job() {
            assert(view.jobs.contains_key(id));
        } else if !(record is JobSubmitted) {
            assert(view.jobs.contains_key(id));
        }
    }
}

/// Retries that come due keep to it too.
pub proof fn lemma_due_retries_keep_attempts(view: CoordinatorView, now: u128)
    requires
        view.well_formed(),
        attempts_bounded(view.jobs),
    ensures
        attempts_bounded(view.after_due_retries(now).jobs),
    decreases view.retries.len(),
{
    if view.retries.len() > 0 && view.retries[0].available_at <= now {
        let next = view.after_retry();
        laws::lemma_retry_keeps_order(view);
        assert forall|id: u128| #[trigger] next.jobs.contains_key(id) implies {
            let job = next.jobs[id];
            &&& job.attempts <= allowed(job)
            &&& job.state == JobState::Queued || job.state == JobState::RetryWaiting
                ==> job.attempts < allowed(job)
        } by {
            assert(view.jobs.contains_key(id));
        }
        lemma_due_retries_keep_attempts(next, now);
    }
}

/// And so does a restart: what is recovered from the log of a coordinator that
/// kept to it keeps to it.
pub proof fn lemma_restart_keeps_attempts(
    view: CoordinatorView,
    records: Seq<RecordView>,
    now: i64,
)
    requires
        recovery::agrees(view.jobs, recovery::replay(records).jobs),
        attempts_bounded(view.jobs),
    ensures
        attempts_bounded(recovery::replay(recovery::reconciled(records, now)).jobs),
{
    let before = recovery::replay(records).jobs;
    let after = recovery::replay(recovery::reconciled(records, now)).jobs;
    recovery::lemma_reconciled_jobs(records, now);
    assert forall|id: u128| #[trigger] after.contains_key(id) implies {
        let job = after[id];
        &&& job.attempts <= allowed(job)
        &&& job.state == JobState::Queued || job.state == JobState::RetryWaiting ==> job.attempts
            < allowed(job)
    } by {
        assert(before.contains_key(id));
        assert(view.jobs.contains_key(id));
    }
}

/// The log keeps up: a coordinator whose jobs are those of its log, but for
/// retries that came due, is so still when a record has been written and applied.
pub proof fn lemma_log_keeps_up(
    view: CoordinatorView,
    log: ReplayView,
    record: RecordView,
    clock: Clock,
)
    requires
        view.well_formed(),
        view.admits(record),
        recovery::agrees(view.jobs, log.jobs),
    ensures
        recovery::agrees(view.after(record, clock).jobs, log.step(record).jobs),
{
    lemma_admitted_job(view, record, clock);
    recovery::lemma_replay_agrees_with_live(view.jobs, log, record);
}

/// The log need not know of retries that come due.
pub proof fn lemma_due_retries_need_no_record(
    view: CoordinatorView,
    log: Map<u128, JobView>,
    now: u128,
)
    requires
        view.well_formed(),
        recovery::agrees(view.jobs, log),
    ensures
        recovery::agrees(view.after_due_retries(now).jobs, log),
    decreases view.retries.len(),
{
    if view.retries.len() > 0 && view.retries[0].available_at <= now {
        laws::lemma_retry_keeps_order(view);
        let id = view.retries[0].job;
        if view.jobs[id].state == JobState::RetryWaiting {
            recovery::lemma_due_retry_keeps_agreement(view.jobs, log, id);
        }
        lemma_due_retries_need_no_record(view.after_retry(), log, now);
    }
}

/// A crash loses nothing that was made durable. What is recovered from the log of
/// a coordinator has its jobs: those that had ended have ended the same way, those
/// that were queued or waited for a retry are queued or wait, and those that ran
/// wait for another try if they have one left and are dead otherwise. None has
/// been tried more often for it.
pub proof fn lemma_crash_loses_nothing(
    view: CoordinatorView,
    records: Seq<RecordView>,
    now: i64,
    id: u128,
)
    requires
        recovery::agrees(view.jobs, recovery::replay(records).jobs),
        view.jobs.contains_key(id),
    ensures
        ({
            let job = view.jobs[id];
            let jobs = recovery::replay(recovery::reconciled(records, now)).jobs;
            &&& jobs.contains_key(id)
            &&& jobs[id] == job.in_state(jobs[id].state)
            &&& match job.state {
                JobState::Queued => jobs[id].state == JobState::Queued || jobs[id].state
                    == JobState::RetryWaiting,
                JobState::Running => jobs[id].state == (if job.attempts < job.max_attempts {
                    JobState::RetryWaiting
                } else {
                    JobState::Dead
                }),
                _ => jobs[id].state == job.state,
            }
        }),
{
    recovery::lemma_reconciled_jobs(records, now);
    let before = recovery::replay(records).jobs;
    assert(before.contains_key(id));
}

/// A lease that has run out is noticed: the first one is found if there is any,
/// and none that still runs is taken for one.
pub proof fn lemma_expired_leases_are_found(view: CoordinatorView, now: u128, from: int)
    requires
        0 <= from,
    ensures
        match view.expired(now, from) {
            Some(k) => {
                &&& from <= k < view.leases.len()
                &&& view.leases[k].deadline <= now
                &&& forall|l: int| from <= l < k ==> (#[trigger] view.leases[l]).deadline > now
            },
            None => forall|l: int|
                from <= l < view.leases.len() ==> (#[trigger] view.leases[l]).deadline > now,
        },
    decreases view.leases.len() - from,
{
    if from < view.leases.len() && view.leases[from].deadline > now {
        lemma_expired_leases_are_found(view, now, from + 1);
    }
}

/// Whether a log that ends cleanly holds what a coordinator knows: replaying it
/// gives the coordinator's jobs, but for retries that came due.
pub open spec fn backed_by(view: CoordinatorView, contents: Seq<u8>) -> bool {
    &&& contents.len() >= HEADER_SIZE
    &&& scanner::scan_log(contents) is Ok
    &&& !scanner::scan_log(contents)->Ok_0.truncated
    &&& recovery::agrees(
        view.jobs,
        recovery::replay(scanner::scan_log(contents)->Ok_0.records).jobs,
    )
}

/// The frame that a record becomes behind the records of a log.
pub open spec fn next_frame(contents: Seq<u8>, record: RecordView) -> FrameView {
    FrameView { sequence: (scanner::scan_log(contents)->Ok_0.records.len() + 1) as u64, record }
}

/// A queue that begins with an empty log is backed by it.
pub proof fn lemma_empty_log_backs_empty_queue(view: CoordinatorView)
    requires
        view.jobs == Map::<u128, JobView>::empty(),
    ensures
        backed_by(view, codec::log_header()),
{
    codec::lemma_header_round_trip(Seq::empty());
    let header = codec::log_header();
    assert(header + Seq::<u8>::empty() =~= header);
    assert(header.skip(HEADER_SIZE as int).len() == 0);
    assert(view.jobs.dom() =~= ReplayView::start().jobs.dom());
}

/// A queue that starts from a log is backed by what recovery leaves of it.
pub proof fn lemma_recovered_log_backs_restored_queue(
    contents: Seq<u8>,
    state: RecoveredState,
    fresh: CoordinatorView,
    clock: Clock,
)
    requires
        contents.len() > 0,
        scanner::scan_log(contents) is Ok,
        scanner::max_epoch(scanner::scan_log(contents)->Ok_0.records) < u64::MAX,
        recovery::reconciled(
            scanner::scan_log(contents)->Ok_0.records,
            clock.wall.0,
        ).len() < u64::MAX,
        state.rebuilt_from(
            recovery::reconciled(scanner::scan_log(contents)->Ok_0.records, clock.wall.0),
        ),
    ensures
        backed_by(
            restore::restored(fresh, state, clock),
            recovery::recovered_log(contents, clock.wall.0),
        ),
{
    recovery::lemma_recovered_log(contents, clock.wall.0);
    let written = recovery::recovered_log(contents, clock.wall.0);
    assert(written.len() >= HEADER_SIZE) by {
        assert(scanner::scan_log(contents) is Ok);
        let found = scanner::scan_log(contents)->Ok_0;
        if found.truncated {
            scanner::lemma_repair_leaves_clean_log(contents);
        }
    }
}

/// Persist before apply: a record that has been written behind the log and is then
/// applied leaves the coordinator backed by the log as it is now.
pub proof fn lemma_write_then_apply(
    view: CoordinatorView,
    contents: Seq<u8>,
    record: RecordView,
    clock: Clock,
)
    requires
        view.well_formed(),
        view.admits(record),
        backed_by(view, contents),
        next_frame(contents, record).fits(),
        scanner::scan_log(contents)->Ok_0.records.len() + 1 < u64::MAX,
    ensures
        backed_by(
            view.after(record, clock),
            contents + next_frame(contents, record).encoding(),
        ),
{
    let records = scanner::scan_log(contents)->Ok_0.records;
    scanner::lemma_append_to_log(contents, next_frame(contents, record));
    lemma_log_keeps_up(view, recovery::replay(records), record, clock);
    assert(records.push(record).drop_last() =~= records);
}

/// A crash while a record is being written leaves the coordinator as it was before
/// that record: the unfinished frame is cut off, and the log that is left backs it.
pub proof fn lemma_crash_before_apply(
    view: CoordinatorView,
    contents: Seq<u8>,
    record: RecordView,
    kept: nat,
)
    requires
        backed_by(view, contents),
        next_frame(contents, record).fits(),
        0 < kept < next_frame(contents, record).encoding().len(),
    ensures
        ({
            let left = contents + next_frame(contents, record).encoding().take(kept as int);
            &&& scanner::scan_log(left) is Ok
            &&& recovery::repaired(left, scanner::scan_log(left)->Ok_0) == contents
        }),
{
    let frame = next_frame(contents, record);
    let left = contents + frame.encoding().take(kept as int);
    scanner::lemma_crash_keeps_earlier_records(contents, frame, kept);
    scanner::lemma_clean_log_is_used_up(contents);
    assert(left.take(contents.len() as int) =~= contents);
}

} // verus!
