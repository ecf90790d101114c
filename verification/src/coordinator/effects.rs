//! What each step of the coordinator brings about, told from its state before and
//! after.

use crate::config;
use crate::config::{Jitter, RuntimeConfig};
use crate::coordinator::figures;
use crate::coordinator::figures::Event;
use crate::coordinator::laws;
use crate::coordinator::model;
use crate::coordinator::model::{Clock, CoordinatorView, QueueView, RetryEntry, WorkerOutcome};
use crate::coordinator::promises;
use crate::coordinator::state::{Command, Coordinator, Step};
use crate::error::Fault;
use crate::handler::LeasedJob;
use crate::types::{JobState, JobView, UnixMillis};
use crate::wal::record::RecordView;
use vstd::prelude::*;

verus! {

/// Whether one job stands ahead of another in a list.
pub open spec fn ahead(list: Seq<u128>, first: u128, second: u128) -> bool {
    exists|k: int, l: int| 0 <= k < l < list.len() && list[k] == first && list[l] == second
}

/// Whether every job but one is as it was.
pub open spec fn only_job(before: Map<u128, JobView>, after: Map<u128, JobView>, id: u128) -> bool {
    &&& after.contains_key(id)
    &&& forall|other: u128|
        other != id ==> (#[trigger] after.contains_key(other) <==> before.contains_key(other))
    &&& forall|other: u128|
        other != id && #[trigger] before.contains_key(other) ==> after[other] == before[other]
}

/// Whether a job is as it was but for its state and its attempts.
pub open spec fn same_work(before: JobView, after: JobView) -> bool {
    &&& after.id == before.id
    &&& after.queue == before.queue
    &&& after.payload == before.payload
    &&& after.max_attempts == before.max_attempts
    &&& after.created_at == before.created_at
}

/// A submission puts a new job, queued and never tried, behind all that are ready
/// in its queue. Those keep their places, and every other queue, job, lease and
/// retry is as it was.
pub proof fn lemma_submission_goes_last(view: CoordinatorView, record: RecordView, clock: Clock)
    requires
        view.well_formed(),
        view.admits(record),
        record is JobSubmitted,
    ensures
        ({
            let after = view.after(record, clock);
            let id = record->JobSubmitted_id;
            &&& only_job(view.jobs, after.jobs, id)
            &&& after.jobs[id].id == id
            &&& after.jobs[id].queue == record->JobSubmitted_queue
            &&& after.jobs[id].payload == record->JobSubmitted_payload
            &&& after.jobs[id].max_attempts == record->JobSubmitted_max_attempts
            &&& after.jobs[id].created_at == record->JobSubmitted_created_at
            &&& after.jobs[id].state == JobState::Queued
            &&& after.jobs[id].attempts == 0
            &&& after.queues.len() == view.queues.len()
            &&& forall|i: int|
                0 <= i < view.queues.len() ==> {
                    let q = view.queues[i];
                    let next = #[trigger] after.queues[i];
                    let own = q.name == record->JobSubmitted_queue;
                    &&& next.name == q.name
                    &&& next.ready.len() == q.ready.len() + (if own {
                        1int
                    } else {
                        0
                    })
                    &&& own ==> next.ready[q.ready.len() as int] == id
                    &&& forall|k: int|
                        0 <= k < q.ready.len() ==> #[trigger] next.ready[k] == q.ready[k]
                    &&& next.completed == q.completed
                    &&& next.dead == q.dead
                    &&& next.cancelled == q.cancelled
                    &&& !own ==> next.submitted == q.submitted
                    &&& own && q.submitted < u64::MAX ==> next.submitted == q.submitted + 1
                }
            &&& view.totals.submitted < u64::MAX ==> after.totals.submitted
                == view.totals.submitted + 1
            &&& after.totals.retried == view.totals.retried
            &&& after.totals.stale_outcomes == view.totals.stale_outcomes
            &&& after == (CoordinatorView {
                jobs: after.jobs,
                queues: after.queues,
                totals: after.totals,
                ..view
            })
        }),
{
    laws::lemma_submission_keeps_order(view, record, clock);
}

/// A lease goes to the job at the front of one queue, which leaves it and is
/// running from then on, with the attempt of the record. The lease ends a
/// visibility timeout later. The worker that waited longest has the job, and the
/// turn passes to the queue behind. Everything else is as it was.
pub proof fn lemma_lease_takes_the_front(
    view: CoordinatorView,
    record: RecordView,
    clock: Clock,
)
    requires
        view.well_formed(),
        view.admits(record),
        record is JobLeased,
    ensures
        ({
            let after = view.after(record, clock);
            let id = record->JobLeased_id;
            let n = view.leases.len() as int;
            &&& view.jobs[id].state == JobState::Queued
            &&& only_job(view.jobs, after.jobs, id)
            &&& same_work(view.jobs[id], after.jobs[id])
            &&& after.jobs[id].state == JobState::Running
            &&& after.jobs[id].attempts == record->JobLeased_attempt
            &&& after.leases.len() == n + 1
            &&& forall|k: int| 0 <= k < n ==> #[trigger] after.leases[k] == view.leases[k]
            &&& after.leases[n].job == id
            &&& after.leases[n].lease_id == record->JobLeased_lease_id
            &&& after.leases[n].deadline == (if clock.now + view.visibility_timeout <= u128::MAX {
                clock.now + view.visibility_timeout
            } else {
                u128::MAX as int
            })
            &&& after.next_lease_epoch == record->JobLeased_lease_id + 1
            &&& after.parked.len() == view.parked.len() - 1
            &&& forall|k: int|
                0 <= k < after.parked.len() ==> #[trigger] after.parked[k] == view.parked[k + 1]
            &&& after.queues.len() == view.queues.len()
            &&& exists|i: int|
                {
                    &&& 0 <= i < view.queues.len()
                    &&& after.cursor == (if i + 1 < view.queues.len() {
                        i + 1
                    } else {
                        0
                    })
                    &&& (#[trigger] view.queues[i]).ready.len() > 0
                    &&& view.queues[i].ready[0] == id
                    &&& after.queues[i].ready.len() == view.queues[i].ready.len() - 1
                    &&& forall|k: int|
                        0 <= k < after.queues[i].ready.len() ==> #[trigger] after.queues[i].ready[k]
                            == view.queues[i].ready[k + 1]
                    &&& after.queues[i] == (QueueView {
                        ready: after.queues[i].ready,
                        ..view.queues[i]
                    })
                    &&& forall|j: int|
                        0 <= j < view.queues.len() && j != i ==> #[trigger] after.queues[j]
                            == view.queues[j]
                }
            &&& after == (CoordinatorView {
                jobs: after.jobs,
                queues: after.queues,
                leases: after.leases,
                parked: after.parked,
                cursor: after.cursor,
                next_lease_epoch: after.next_lease_epoch,
                ..view
            })
        }),
{
    laws::lemma_lease_keeps_order(view, record, clock);
    laws::lemma_next_queue(view.queues, view.cursor, 0);
    let i = model::next_queue(view.queues, view.cursor, 0)->Some_0;
    assert(view.queues[i].ready[0] == record.job());
    assert(view.queues[i].ready.len() > 0);
}

/// The job that is handed out is the first of the queue whose turn comes first among
/// those that have a ready job, counted from the queue whose turn it is.
pub proof fn lemma_first_turn_is_served(view: CoordinatorView, leased_at: i64)
    requires
        view.well_formed(),
        Coordinator::can_dispatch(view),
    ensures
        exists|i: int|
            {
                let turns = |q: int|
                    if q >= view.cursor {
                        q - view.cursor
                    } else {
                        q - view.cursor + view.queues.len()
                    };
                &&& 0 <= i < view.queues.len()
                &&& (#[trigger] view.queues[i]).ready.len() > 0
                &&& view.queues[i].ready[0] == Coordinator::next_lease(
                    view,
                    leased_at,
                )->JobLeased_id
                &&& forall|j: int|
                    0 <= j < view.queues.len() && (#[trigger] view.queues[j]).ready.len() > 0
                        ==> turns(i) <= turns(j)
            },
{
    let n = view.queues.len();
    laws::lemma_next_queue(view.queues, view.cursor, 0);
    let i = model::next_queue(view.queues, view.cursor, 0)->Some_0;
    let k = choose|k: int|
        {
            &&& 0 <= k < n
            &&& i == #[trigger] model::wrap(view.cursor + k, n)
            &&& forall|l: int|
                0 <= l < k ==> (#[trigger] view.queues[model::wrap(
                    view.cursor + l,
                    n,
                )]).ready.len() == 0
        };
    assert forall|j: int|
        0 <= j < n && (#[trigger] view.queues[j]).ready.len() > 0 implies promises::turns_until(
        view.cursor,
        i,
        n,
    ) <= promises::turns_until(view.cursor, j, n) by {
        let d = promises::turns_until(view.cursor, j, n);
        assert(model::wrap(view.cursor + d, n) == j);
        if d < k {
            assert(view.queues[model::wrap(view.cursor + d, n)].ready.len() == 0);
        }
    }
    assert(view.queues[i].ready.len() > 0);
}

/// A lease is found to have run out from the visibility timeout on, and at no
/// moment before.
pub proof fn lemma_lease_runs_out_on_time(
    view: CoordinatorView,
    record: RecordView,
    clock: Clock,
    now: u128,
)
    requires
        view.well_formed(),
        view.admits(record),
        record is JobLeased,
        forall|k: int| 0 <= k < view.leases.len() ==> (#[trigger] view.leases[k]).deadline > now,
    ensures
        ({
            let after = view.after(record, clock);
            let found = after.expired(now, 0);
            &&& now < clock.now + view.visibility_timeout && now < u128::MAX ==> found is None
            &&& now >= clock.now + view.visibility_timeout || now == u128::MAX ==> found is Some
                && after.leases[found->Some_0].job == record->JobLeased_id
        }),
{
    let after = view.after(record, clock);
    lemma_lease_takes_the_front(view, record, clock);
    promises::lemma_expired_leases_are_found(after, now, 0);
    let n = view.leases.len() as int;
    match after.expired(now, 0) {
        Some(k) => {
            if k < n {
                assert(after.leases[k] == view.leases[k]);
            }
        },
        None => {
            assert(after.leases[n].deadline > now);
        },
    }
}

/// Whether a job's lease, where it had one, is gone and every other one is there in
/// the order that they had.
pub open spec fn lease_given_back(
    view: CoordinatorView,
    after: CoordinatorView,
    id: u128,
) -> bool {
    &&& forall|k: int| 0 <= k < after.leases.len() ==> (#[trigger] after.leases[k]).job != id
    &&& (forall|k: int| 0 <= k < view.leases.len() ==> (#[trigger] view.leases[k]).job != id)
        ==> after.leases == view.leases
    &&& forall|k: int|
        0 <= k < view.leases.len() && (#[trigger] view.leases[k]).job == id ==> {
            &&& after.leases.len() == view.leases.len() - 1
            &&& forall|l: int| 0 <= l < k ==> #[trigger] after.leases[l] == view.leases[l]
            &&& forall|l: int|
                k <= l < after.leases.len() ==> #[trigger] after.leases[l] == view.leases[l + 1]
        }
}

proof fn lemma_lease_given_back(view: CoordinatorView, after: CoordinatorView, id: u128)
    requires
        view.leases_are_running(),
        after.leases == view.leases_without(id),
    ensures
        lease_given_back(view, after, id),
{
    if model::leased(view.leases, id) {
        let at = model::lease_index(view.leases, id);
        assert(view.leases[at].job == id);
        assert forall|k: int| 0 <= k < after.leases.len() implies (#[trigger] after.leases[k]).job
            != id by {
            if k < at {
                assert(view.leases[k].job != view.leases[at].job);
            } else {
                assert(after.leases[k] == view.leases[k + 1]);
                assert(view.leases[at].job != view.leases[k + 1].job);
            }
        }
        assert forall|k: int| 0 <= k < view.leases.len() && (#[trigger] view.leases[k]).job
            == id implies k == at by {
            if k < at {
                assert(view.leases[k].job != view.leases[at].job);
            }
            if at < k {
                assert(view.leases[at].job != view.leases[k].job);
            }
        }
    } else {
        assert forall|k: int| 0 <= k < view.leases.len() implies (#[trigger] view.leases[k]).job
            != id by {
            if view.leases[k].job == id {
                assert(model::leased(view.leases, id));
            }
        }
    }
}

/// The moment on the monotonic clock that stands for one on the wall clock lies as
/// far ahead as that does. A moment that is past is now, and one that lies beyond
/// the clock is its last.
pub proof fn lemma_moments_correspond(clock: Clock, at: i64)
    ensures
        at <= clock.wall.0 ==> model::monotonic(clock, at) == clock.now,
        at > clock.wall.0 && clock.now + (at - clock.wall.0) * 1_000_000 <= u128::MAX
            ==> model::monotonic(clock, at) - clock.now == (at - clock.wall.0) * 1_000_000,
        at > clock.wall.0 && clock.now + (at - clock.wall.0) * 1_000_000 > u128::MAX
            ==> model::monotonic(clock, at) == u128::MAX,
{
}

/// A retry takes its job from its worker and lets it wait. It is due when the
/// record says, behind the retries that are due no later and ahead of those that
/// are. The attempts, and everything else, are as they were.
pub proof fn lemma_failure_schedules_a_retry(
    view: CoordinatorView,
    record: RecordView,
    clock: Clock,
)
    requires
        view.well_formed(),
        view.admits(record),
        record is JobRetryScheduled,
    ensures
        ({
            let after = view.after(record, clock);
            let id = record->JobRetryScheduled_id;
            let at = record->JobRetryScheduled_available_at;
            let n = view.retries.len() as int;
            &&& view.jobs[id].state == JobState::Running
            &&& only_job(view.jobs, after.jobs, id)
            &&& same_work(view.jobs[id], after.jobs[id])
            &&& after.jobs[id].state == JobState::RetryWaiting
            &&& after.jobs[id].attempts == view.jobs[id].attempts
            &&& lease_given_back(view, after, id)
            &&& after.retries.len() == n + 1
            &&& exists|p: int|
                {
                    &&& 0 <= p <= n
                    &&& (#[trigger] after.retries[p]).job == id
                    &&& at <= clock.wall.0 ==> after.retries[p].available_at == clock.now
                    &&& at > clock.wall.0 ==> after.retries[p].available_at == (if clock.now + (at
                        - clock.wall.0) * 1_000_000 <= u128::MAX {
                        clock.now + (at - clock.wall.0) * 1_000_000
                    } else {
                        u128::MAX as int
                    })
                    &&& forall|k: int|
                        0 <= k < p ==> #[trigger] after.retries[k] == view.retries[k]
                            && after.retries[k].available_at <= after.retries[p].available_at
                    &&& forall|k: int|
                        p < k <= n ==> #[trigger] after.retries[k] == view.retries[k - 1]
                            && after.retries[k].available_at > after.retries[p].available_at
                }
            &&& view.totals.retried < u64::MAX ==> after.totals.retried == view.totals.retried + 1
            &&& after.totals.submitted == view.totals.submitted
            &&& after.totals.stale_outcomes == view.totals.stale_outcomes
            &&& after == (CoordinatorView {
                jobs: after.jobs,
                leases: after.leases,
                retries: after.retries,
                totals: after.totals,
                ..view
            })
        }),
{
    let after = view.after(record, clock);
    let id = record.job();
    let at = record->JobRetryScheduled_available_at;
    laws::lemma_failure_keeps_order(view, record, clock);
    laws::lemma_admitted_end(view, record);
    lemma_lease_given_back(view, after, id);
    let due = model::monotonic(clock, at);
    let p = model::retry_position(view.retries, due);
    laws::lemma_retry_position(view.retries, due);
    assert(after.retries == view.retries.insert(p, RetryEntry { available_at: due, job: id }));
    assert(after.retries[p].job == id);
    assert forall|k: int| 0 <= k < p implies #[trigger] after.retries[k] == view.retries[k]
        && after.retries[k].available_at <= after.retries[p].available_at by {}
    assert forall|k: int| p < k <= view.retries.len() implies #[trigger] after.retries[k]
        == view.retries[k - 1] && after.retries[k].available_at > after.retries[p].available_at by {
        let old = view.retries[k - 1];
        assert(old.available_at > due);
    }
}

/// Whether a job has ended, in the given state, and left everything that it was
/// in: its lease is given back, it is not ready, and the other jobs keep their
/// order. Its queue has counted it, and nothing else has changed.
pub open spec fn ended(
    view: CoordinatorView,
    after: CoordinatorView,
    id: u128,
    state: JobState,
) -> bool {
    &&& only_job(view.jobs, after.jobs, id)
    &&& same_work(view.jobs[id], after.jobs[id])
    &&& after.jobs[id].state == state
    &&& after.jobs[id].attempts == view.jobs[id].attempts
    &&& lease_given_back(view, after, id)
    &&& after.queues.len() == view.queues.len()
    &&& forall|i: int|
        0 <= i < view.queues.len() ==> {
            let q = view.queues[i];
            let next = #[trigger] after.queues[i];
            let own = q.name == view.jobs[id].queue;
            &&& next.name == q.name
            &&& next.submitted == q.submitted
            &&& !next.ready.contains(id)
            &&& !q.ready.contains(id) ==> next.ready == q.ready
            &&& forall|k: int|
                0 <= k < q.ready.len() && #[trigger] q.ready[k] == id ==> {
                    &&& next.ready.len() == q.ready.len() - 1
                    &&& forall|l: int| 0 <= l < k ==> #[trigger] next.ready[l] == q.ready[l]
                    &&& forall|l: int|
                        k <= l < next.ready.len() ==> #[trigger] next.ready[l] == q.ready[l + 1]
                }
            &&& counts(q.completed, next.completed, own && state == JobState::Completed)
            &&& counts(q.dead, next.dead, own && state == JobState::Dead)
            &&& counts(q.cancelled, next.cancelled, own && state == JobState::Cancelled)
        }
    &&& after == (CoordinatorView {
        jobs: after.jobs,
        queues: after.queues,
        leases: after.leases,
        ..view
    })
}

/// Whether a counter went up by one, where it was to, and stayed otherwise. At its
/// largest it stays in any case.
pub open spec fn counts(before: u64, after: u64, up: bool) -> bool {
    if up && before < u64::MAX {
        after == before + 1
    } else {
        after == before
    }
}

/// A job that ends under its lease is completed or dead, as its record says.
pub proof fn lemma_end_ends(view: CoordinatorView, record: RecordView, clock: Clock)
    requires
        view.well_formed(),
        view.admits(record),
        record is JobCompleted || record is JobDead,
    ensures
        record matches RecordView::JobCompleted { id, .. } ==> view.jobs[id].state
            == JobState::Running && ended(
            view,
            view.after(record, clock),
            id,
            JobState::Completed,
        ),
        record matches RecordView::JobDead { id, .. } ==> view.jobs[id].state == JobState::Running
            && ended(view, view.after(record, clock), id, JobState::Dead),
{
    let after = view.after(record, clock);
    let id = record.job();
    laws::lemma_end_keeps_order(view, record, clock);
    laws::lemma_admitted_end(view, record);
    lemma_lease_given_back(view, after, id);
    assert forall|i: int| 0 <= i < view.queues.len() implies !(
    #[trigger] after.queues[i]).ready.contains(id) && !view.queues[i].ready.contains(id) by {
        let q = view.queues[i];
        if q.ready.contains(id) {
            let k = choose|k: int| 0 <= k < q.ready.len() && q.ready[k] == id;
            assert(view.jobs[view.queues[i].ready[k]].state == JobState::Queued);
        }
    }
}

/// A job that is cancelled leaves wherever it was: its worker loses it, or it is
/// ready no more. A retry that it waited for is not taken for it.
pub proof fn lemma_cancellation_ends(view: CoordinatorView, record: RecordView, clock: Clock)
    requires
        view.well_formed(),
        view.admits(record),
        record is JobCancelled,
    ensures
        ended(view, view.after(record, clock), record->JobCancelled_id, JobState::Cancelled),
        !view.jobs[record->JobCancelled_id].state.terminal(),
{
    let after = view.after(record, clock);
    let id = record.job();
    laws::lemma_cancellation_keeps_order(view, record, clock);
    lemma_lease_given_back(view, after, id);
    assert forall|i: int| 0 <= i < view.queues.len() implies {
        let q = view.queues[i];
        let next = #[trigger] after.queues[i];
        &&& !next.ready.contains(id)
        &&& !q.ready.contains(id) ==> next.ready == q.ready
        &&& forall|k: int|
            0 <= k < q.ready.len() && #[trigger] q.ready[k] == id ==> {
                &&& next.ready.len() == q.ready.len() - 1
                &&& forall|l: int| 0 <= l < k ==> #[trigger] next.ready[l] == q.ready[l]
                &&& forall|l: int|
                    k <= l < next.ready.len() ==> #[trigger] next.ready[l] == q.ready[l + 1]
            }
    } by {
        let q = view.queues[i];
        let next = after.queues[i];
        if next.ready.contains(id) {
            let k = choose|k: int| 0 <= k < next.ready.len() && next.ready[k] == id;
            assert(after.jobs[after.queues[i].ready[k]].state == JobState::Queued);
        }
        if q.ready.contains(id) {
            let k = choose|k: int| 0 <= k < q.ready.len() && q.ready[k] == id;
            assert(view.jobs[view.queues[i].ready[k]].queue == q.name);
            assert(q.ready.no_duplicates());
            let at = q.ready.index_of(id);
            assert(q.ready[at] == id);
            assert(next.ready == q.ready.remove(at));
        }
    }
}

/// A job is handed out where one is ready, a worker waits for one, and the queue
/// does not shut down; and then it is the first of some queue. Its lease has the
/// next epoch and counts one attempt more than the job has had.
pub proof fn lemma_leases_count_attempts(view: CoordinatorView, leased_at: i64)
    requires
        view.well_formed(),
    ensures
        Coordinator::can_dispatch(view) <==> !view.shutting_down && view.parked.len() > 0 && (
        exists|i: int| 0 <= i < view.queues.len() && (#[trigger] view.queues[i]).ready.len() > 0),
        Coordinator::can_dispatch(view) ==> {
            let record = Coordinator::next_lease(view, leased_at);
            &&& record is JobLeased
            &&& view.jobs.contains_key(record->JobLeased_id)
            &&& exists|i: int|
                0 <= i < view.queues.len() && (#[trigger] view.queues[i]).ready.len() > 0
                    && view.queues[i].ready[0] == record->JobLeased_id
            &&& record->JobLeased_lease_id == view.next_lease_epoch
            &&& record->JobLeased_leased_at == leased_at
            &&& view.jobs[record->JobLeased_id].attempts < u32::MAX ==> record->JobLeased_attempt
                == view.jobs[record->JobLeased_id].attempts + 1
            &&& view.jobs[record->JobLeased_id].attempts == u32::MAX ==> record->JobLeased_attempt
                == u32::MAX
        },
{
    if view.queues.len() > 0 {
        laws::lemma_next_queue(view.queues, view.cursor, 0);
        match model::next_queue(view.queues, view.cursor, 0) {
            Some(i) => {
                assert(view.queues[i].ready.len() > 0);
                let id = view.queues[i].ready[0];
                assert(view.jobs.contains_key(id));
            },
            None => {
                assert forall|i: int| 0 <= i < view.queues.len() implies (
                #[trigger] view.queues[i]).ready.len() == 0 by {
                    let n = view.queues.len();
                    let k = promises::turns_until(view.cursor, i, n);
                    assert(0 <= k < n);
                    assert(model::wrap(view.cursor + k, n) == i);
                    assert(view.queues[model::wrap(view.cursor + k, n)].ready.len() == 0);
                }
            },
        }
    }
}

/// An attempt that failed, in a way that may pass, by a panic or because its lease
/// ran out, is followed by another exactly where the job has attempts left. An
/// attempt that succeeded completes the job, and one that failed for good ends it.
pub proof fn lemma_outcomes_decide(
    view: CoordinatorView,
    id: u128,
    lease_id: u64,
    outcome: WorkerOutcome,
    wall: i64,
    sample: u32,
)
    ensures
        ({
            let job = view.jobs[id];
            let record = view.verdict(id, lease_id, outcome, wall, sample);
            let timeout = view.failure(id, lease_id, wall, sample);
            let again = job.attempts < job.max_attempts;
            &&& outcome == WorkerOutcome::Success ==> record == (RecordView::JobCompleted {
                id,
                lease_id,
                completed_at: wall,
            })
            &&& outcome == WorkerOutcome::Fatal ==> record == (RecordView::JobDead {
                id,
                lease_id,
                dead_at: wall,
            })
            &&& outcome == WorkerOutcome::Retryable || outcome == WorkerOutcome::Panic ==> record
                == timeout
            &&& !again ==> timeout == (RecordView::JobDead { id, lease_id, dead_at: wall })
            &&& again ==> {
                &&& timeout is JobRetryScheduled
                &&& timeout->JobRetryScheduled_id == id
                &&& timeout->JobRetryScheduled_lease_id == lease_id
                &&& timeout->JobRetryScheduled_attempt == job.attempts
            }
        }),
{
}

/// The delay before a retry is the doubled base delay, kept to the largest one;
/// jitter leaves the given part of it. The retry is due when the delay has passed,
/// rounded up to a whole millisecond, or at the last moment that there is.
pub proof fn lemma_retries_wait(
    view: CoordinatorView,
    id: u128,
    lease_id: u64,
    wall: i64,
    sample: u32,
)
    requires
        view.jobs[id].attempts < view.jobs[id].max_attempts,
    ensures
        ({
            let attempts = view.jobs[id].attempts;
            let base = view.retry.base_delay;
            let most = view.retry.max_delay;
            let doubled = base * vstd::arithmetic::power2::pow2(
                if attempts > 0 {
                    (attempts - 1) as nat
                } else {
                    0
                },
            );
            let full = if doubled < most {
                doubled
            } else {
                most as int
            };
            let delay = model::retry_delay(view.retry, attempts, sample);
            let at = view.failure(id, lease_id, wall, sample)->JobRetryScheduled_available_at;
            &&& view.retry.jitter == Jitter::Off ==> delay == full
            &&& view.retry.jitter == Jitter::Full ==> 0 <= full * sample - delay * u32::MAX
                < u32::MAX
            &&& at == i64::MAX || delay <= (at - wall) * 1_000_000 < delay + 1_000_000
            &&& at == i64::MAX ==> (i64::MAX - wall) * 1_000_000 < delay + 1_000_000
        }),
{
    let attempts = view.jobs[id].attempts;
    promises::lemma_delay_is_bounded(view.retry, attempts, sample);
    let full = config::backoff(
        view.retry.base_delay as nat,
        view.retry.max_delay as nat,
        attempts as nat,
    );
    let delay = model::retry_delay(view.retry, attempts, sample);
    let d = u32::MAX as int;
    if view.retry.jitter == Jitter::Full {
        assert(0 <= full * sample - ((full * sample) / d) * d < d) by (nonlinear_arith)
            requires
                d == 0xffff_ffff,
        ;
    }
    let millis = (delay + 999_999) / 1_000_000;
    assert(delay <= millis * 1_000_000 < delay + 1_000_000);
}

/// What happens to a list when jobs leave it and others come in behind: two that
/// stay keep their order.
proof fn lemma_ahead_after_removal(before: Seq<u128>, after: Seq<u128>, at: int, a: u128, b: u128)
    requires
        before.no_duplicates(),
        0 <= at < before.len(),
        after == before.remove(at),
        ahead(before, a, b),
        after.contains(a),
        after.contains(b),
    ensures
        ahead(after, a, b),
{
    let (k, l) = choose|k: int, l: int|
        0 <= k < l < before.len() && before[k] == a && before[l] == b;
    if k == at {
        let m = choose|m: int| 0 <= m < after.len() && after[m] == a;
        assert(before[if m < at {
            m
        } else {
            m + 1
        }] == a);
    }
    if l == at {
        let m = choose|m: int| 0 <= m < after.len() && after[m] == b;
        assert(before[if m < at {
            m
        } else {
            m + 1
        }] == b);
    }
    let k2 = if k < at {
        k
    } else {
        k - 1
    };
    let l2 = if l < at {
        l
    } else {
        l - 1
    };
    assert(after[k2] == a && after[l2] == b);
}

/// First come is first served: while two jobs are ready in a queue they keep their
/// order, whatever is applied, and no lease goes to the one behind.
pub proof fn lemma_order_of_ready_jobs_is_kept(
    view: CoordinatorView,
    record: RecordView,
    clock: Clock,
    i: int,
    a: u128,
    b: u128,
)
    requires
        view.well_formed(),
        view.admits(record),
        0 <= i < view.queues.len(),
        ahead(view.queues[i].ready, a, b),
    ensures
        record matches RecordView::JobLeased { id, .. } ==> id != b,
        view.after(record, clock).queues[i].ready.contains(a) && view.after(
            record,
            clock,
        ).queues[i].ready.contains(b) ==> ahead(view.after(record, clock).queues[i].ready, a, b),
{
    let after = view.after(record, clock);
    let q = view.queues[i];
    let next = after.queues[i];
    let (k, l) = choose|k: int, l: int|
        0 <= k < l < q.ready.len() && q.ready[k] == a && q.ready[l] == b;
    assert(q.ready.no_duplicates());
    match record {
        RecordView::JobSubmitted { .. } => {
            lemma_submission_goes_last(view, record, clock);
            assert(next.ready[k] == a && next.ready[l] == b);
        },
        RecordView::JobLeased { id, .. } => {
            lemma_lease_takes_the_front(view, record, clock);
            let j = choose|j: int|
                0 <= j < view.queues.len() && (#[trigger] view.queues[j]).ready.len() > 0
                    && view.queues[j].ready[0] == id && after.queues[j].ready.len()
                    == view.queues[j].ready.len() - 1 && (forall|m: int|
                    0 <= m < after.queues[j].ready.len() ==> #[trigger] after.queues[j].ready[m]
                        == view.queues[j].ready[m + 1]) && (forall|m: int|
                    0 <= m < view.queues.len() && m != j ==> #[trigger] after.queues[m]
                        == view.queues[m]);
            if id == b {
                assert(view.jobs[view.queues[j].ready[0]].queue == view.queues[j].name);
                assert(view.jobs[view.queues[i].ready[l]].queue == view.queues[i].name);
                assert(view.queues[i].name == view.queues[j].name);
                assert(i == j);
                assert(q.ready[0] == q.ready[l]);
            }
            if i == j {
                assert(next.ready =~= q.ready.remove(0));
                if next.ready.contains(a) && next.ready.contains(b) {
                    lemma_ahead_after_removal(q.ready, next.ready, 0, a, b);
                }
            }
        },
        RecordView::JobRetryScheduled { .. } => {
            lemma_failure_schedules_a_retry(view, record, clock);
        },
        RecordView::JobCancelled { id, .. } => {
            lemma_cancellation_ends(view, record, clock);
            if q.ready.contains(id) {
                let at = choose|at: int| 0 <= at < q.ready.len() && q.ready[at] == id;
                assert(next.ready =~= q.ready.remove(at));
                if next.ready.contains(a) && next.ready.contains(b) {
                    lemma_ahead_after_removal(q.ready, next.ready, at, a, b);
                }
            }
        },
        _ => {
            lemma_end_ends(view, record, clock);
            let id = record.job();
            if q.ready.contains(id) {
                let at = choose|at: int| 0 <= at < q.ready.len() && q.ready[at] == id;
                assert(view.jobs[view.queues[i].ready[at]].state == JobState::Queued);
            }
        },
    }
}

/// Whether the retry at a position is due, and its job still waits for it in the
/// given queue.
pub open spec fn comes_due(view: CoordinatorView, now: u128, k: int, queue: Seq<char>) -> bool {
    let entry = view.retries[k];
    &&& 0 <= k < view.retries.len()
    &&& entry.available_at <= now
    &&& view.jobs[entry.job].state == JobState::RetryWaiting
    &&& view.jobs[entry.job].queue == queue
}

/// Whether a queue has taken in the jobs whose retries came due: behind those that
/// were ready, which keep their places, and each behind those that were due before
/// it.
pub open spec fn lined_up(view: CoordinatorView, now: u128, q: QueueView, next: QueueView) -> bool {
    &&& next == (QueueView { ready: next.ready, ..q })
    &&& next.ready.len() >= q.ready.len()
    &&& forall|m: int| 0 <= m < q.ready.len() ==> #[trigger] next.ready[m] == q.ready[m]
    &&& forall|m: int|
        q.ready.len() <= m < next.ready.len() ==> taken_in(view, now, q.name, #[trigger] next.ready[m])
    &&& forall|k: int| #[trigger]
        comes_due(view, now, k, q.name) ==> next.ready.contains(view.retries[k].job)
    &&& forall|k: int, l: int|
        k < l && #[trigger] comes_due(view, now, k, q.name) && #[trigger] comes_due(
            view,
            now,
            l,
            q.name,
        ) ==> ahead(next.ready, view.retries[k].job, view.retries[l].job)
}

/// Whether a job is one whose retry came due.
pub open spec fn taken_in(view: CoordinatorView, now: u128, queue: Seq<char>, id: u128) -> bool {
    exists|k: int| #[trigger] comes_due(view, now, k, queue) && view.retries[k].job == id
}

/// The retries that are due are taken, and no other. The job of each, if it still
/// waits, is queued again, tried as often as before, behind the jobs that are ready
/// in its queue; those that were due earlier stand ahead. Everything else is as it
/// was.
pub proof fn lemma_due_retries_line_up(view: CoordinatorView, now: u128)
    requires
        view.well_formed(),
    ensures
        ({
            let after = view.after_due_retries(now);
            &&& exists|taken: int|
                {
                    &&& 0 <= taken <= view.retries.len()
                    &&& after.retries == #[trigger] view.retries.skip(taken)
                    &&& forall|k: int|
                        0 <= k < taken ==> (#[trigger] view.retries[k]).available_at <= now
                    &&& forall|k: int|
                        taken <= k < view.retries.len() ==> (
                        #[trigger] view.retries[k]).available_at > now
                }
            &&& after.jobs.dom() == view.jobs.dom()
            &&& forall|id: u128| #[trigger]
                view.jobs.contains_key(id) ==> {
                    let due = exists|k: int|
                        0 <= k < view.retries.len() && (#[trigger] view.retries[k]).job == id
                            && view.retries[k].available_at <= now;
                    &&& same_work(view.jobs[id], after.jobs[id])
                    &&& after.jobs[id].attempts == view.jobs[id].attempts
                    &&& after.jobs[id].state == (if due && view.jobs[id].state
                        == JobState::RetryWaiting {
                        JobState::Queued
                    } else {
                        view.jobs[id].state
                    })
                }
            &&& after.queues.len() == view.queues.len()
            &&& forall|i: int|
                0 <= i < view.queues.len() ==> lined_up(
                    view,
                    now,
                    view.queues[i],
                    #[trigger] after.queues[i],
                )
            &&& after == (CoordinatorView {
                jobs: after.jobs,
                queues: after.queues,
                retries: after.retries,
                ..view
            })
        }),
    decreases view.retries.len(),
{
    let after = view.after_due_retries(now);
    if view.retries.len() == 0 || view.retries[0].available_at > now {
        assert(view.retries.skip(0) =~= view.retries);
        assert forall|k: int| 0 <= k < view.retries.len() implies (
        #[trigger] view.retries[k]).available_at > now by {
            if k > 0 {
                assert(view.retries[0].available_at <= view.retries[k].available_at);
            }
        }
    } else {
        let mid = view.after_retry();
        let id = view.retries[0].job;
        laws::lemma_retry_keeps_order(view);
        lemma_due_retries_line_up(mid, now);
        assert forall|k: int| 0 <= k < mid.retries.len() implies #[trigger] mid.retries[k]
            == view.retries[k + 1] by {}
        let rest = choose|taken: int|
            {
                &&& 0 <= taken <= mid.retries.len()
                &&& after.retries == #[trigger] mid.retries.skip(taken)
                &&& forall|k: int|
                    0 <= k < taken ==> (#[trigger] mid.retries[k]).available_at <= now
                &&& forall|k: int|
                    taken <= k < mid.retries.len() ==> (#[trigger] mid.retries[k]).available_at
                        > now
            };
        assert(view.retries.skip(rest + 1) =~= mid.retries.skip(rest));
        assert forall|k: int| 0 <= k < rest + 1 implies (#[trigger] view.retries[k]).available_at
            <= now by {
            if k > 0 {
                assert(mid.retries[k - 1] == view.retries[k]);
            }
        }
        assert forall|k: int| rest + 1 <= k < view.retries.len() implies (
        #[trigger] view.retries[k]).available_at > now by {
            assert(mid.retries[k - 1] == view.retries[k]);
        }
        assert(mid.jobs.dom() =~= view.jobs.dom());
        assert forall|other: u128| #[trigger] view.jobs.contains_key(other) implies {
            let due = exists|k: int|
                0 <= k < view.retries.len() && (#[trigger] view.retries[k]).job == other
                    && view.retries[k].available_at <= now;
            &&& same_work(view.jobs[other], after.jobs[other])
            &&& after.jobs[other].attempts == view.jobs[other].attempts
            &&& after.jobs[other].state == (if due && view.jobs[other].state
                == JobState::RetryWaiting {
                JobState::Queued
            } else {
                view.jobs[other].state
            })
        } by {
            assert(mid.jobs.contains_key(other));
            if other == id {
                assert(view.retries[0].job == id);
            } else {
                if exists|k: int|
                    0 <= k < view.retries.len() && (#[trigger] view.retries[k]).job == other
                        && view.retries[k].available_at <= now {
                    let k = choose|k: int|
                        0 <= k < view.retries.len() && (#[trigger] view.retries[k]).job == other
                            && view.retries[k].available_at <= now;
                    assert(mid.retries[k - 1].job == other);
                }
                if exists|k: int|
                    0 <= k < mid.retries.len() && (#[trigger] mid.retries[k]).job == other
                        && mid.retries[k].available_at <= now {
                    let k = choose|k: int|
                        0 <= k < mid.retries.len() && (#[trigger] mid.retries[k]).job == other
                            && mid.retries[k].available_at <= now;
                    assert(view.retries[k + 1].job == other);
                }
            }
        }
        assert forall|k: int, queue: Seq<char>| k > 0 implies (#[trigger] comes_due(
            view,
            now,
            k,
            queue,
        ) <==> comes_due(mid, now, k - 1, queue)) by {
            if 0 < k < view.retries.len() {
                assert(view.retries[0].job != view.retries[k].job);
                assert(mid.retries[k - 1] == view.retries[k]);
            }
        }
        assert forall|i: int| 0 <= i < view.queues.len() implies lined_up(
            view,
            now,
            view.queues[i],
            #[trigger] after.queues[i],
        ) by {
            assert(lined_up(mid, now, mid.queues[i], after.queues[i]));
            lemma_line_in_queue(view, mid, after, now, i);
        }
    }
}

/// The step of [`lemma_due_retries_line_up`] within one queue.
proof fn lemma_line_in_queue(
    view: CoordinatorView,
    mid: CoordinatorView,
    after: CoordinatorView,
    now: u128,
    i: int,
)
    requires
        view.well_formed(),
        view.retries.len() > 0,
        view.retries[0].available_at <= now,
        mid == view.after_retry(),
        0 <= i < view.queues.len(),
        after.queues.len() == view.queues.len(),
        forall|k: int, queue: Seq<char>|
            k > 0 ==> (#[trigger] comes_due(view, now, k, queue) <==> comes_due(
                mid,
                now,
                k - 1,
                queue,
            )),
        forall|k: int|
            0 <= k < mid.retries.len() ==> #[trigger] mid.retries[k] == view.retries[k + 1],
        lined_up(mid, now, mid.queues[i], after.queues[i]),
    ensures
        lined_up(view, now, view.queues[i], after.queues[i]),
{
    let q = view.queues[i];
    let half = mid.queues[i];
    let next = after.queues[i];
    let n = q.ready.len() as int;
    let id = view.retries[0].job;
    assert(half.name == q.name);
    assert forall|m: int| 0 <= m < n implies #[trigger] next.ready[m] == q.ready[m] by {
        assert(half.ready[m] == q.ready[m]);
    }
    if comes_due(view, now, 0, q.name) {
        assert(half.ready =~= q.ready.push(id));
        assert(next.ready[n] == half.ready[n]);
    } else {
        assert(half.ready == q.ready);
    }
    assert forall|m: int| n <= m < next.ready.len() implies taken_in(
        view,
        now,
        q.name,
        #[trigger] next.ready[m],
    ) by {
        if m < half.ready.len() {
            assert(comes_due(view, now, 0, q.name) && view.retries[0].job == next.ready[m]);
        } else {
            assert(taken_in(mid, now, q.name, next.ready[m]));
            let k = choose|k: int| #[trigger]
                comes_due(mid, now, k, q.name) && mid.retries[k].job == next.ready[m];
            assert(comes_due(view, now, k + 1, q.name));
            assert(view.retries[k + 1].job == next.ready[m]);
        }
    }
    assert forall|k: int| #[trigger] comes_due(view, now, k, q.name) implies next.ready.contains(
        view.retries[k].job,
    ) by {
        if k == 0 {
            assert(next.ready[n] == id);
        } else {
            assert(comes_due(mid, now, k - 1, q.name));
            assert(mid.retries[k - 1] == view.retries[k]);
        }
    }
    assert forall|k: int, l: int|
        k < l && #[trigger] comes_due(view, now, k, q.name) && #[trigger] comes_due(
            view,
            now,
            l,
            q.name,
        ) implies ahead(next.ready, view.retries[k].job, view.retries[l].job) by {
        assert(comes_due(mid, now, l - 1, q.name));
        assert(mid.retries[l - 1] == view.retries[l]);
        if k > 0 {
            assert(comes_due(mid, now, k - 1, q.name));
            assert(mid.retries[k - 1] == view.retries[k]);
        } else {
            let other = view.retries[l].job;
            assert(next.ready.contains(other));
            let m = choose|m: int| 0 <= m < next.ready.len() && next.ready[m] == other;
            assert(m > n) by {
                if m < n {
                    assert(q.ready[m] == other);
                    assert(view.jobs[view.queues[i].ready[m]].state == JobState::Queued);
                }
                if m == n {
                    assert(view.retries[0].job != view.retries[l].job);
                }
            }
            assert(next.ready[n] == id && next.ready[m] == other);
        }
    }
}

/// A new coordinator has the configured queues, in order, and nothing in them. It
/// goes by the configured delays and timeouts, and its first lease is of epoch 1.
pub proof fn lemma_new_coordinator_is_empty(config: RuntimeConfig)
    ensures
        ({
            let view = Coordinator::initial(config);
            &&& forall|id: u128| !#[trigger] view.jobs.contains_key(id)
            &&& view.queues.len() == config.queues@.len()
            &&& forall|i: int|
                0 <= i < view.queues.len() ==> {
                    let q = #[trigger] view.queues[i];
                    &&& q.name == config.queues@[i].name@
                    &&& q.ready.len() == 0
                    &&& q.submitted == 0 && q.completed == 0 && q.dead == 0 && q.cancelled == 0
                }
            &&& view.leases.len() == 0 && view.retries.len() == 0 && view.parked.len() == 0
            &&& view.cursor == 0
            &&& view.next_lease_epoch == 1
            &&& view.totals.submitted == 0 && view.totals.retried == 0
                && view.totals.stale_outcomes == 0
            &&& !view.shutting_down && !view.abandoned
            &&& view.retry.base_delay == config.retry.base_delay
            &&& view.retry.max_delay == config.retry.max_delay
            &&& view.retry.jitter == config.retry.jitter
            &&& view.visibility_timeout == config.visibility_timeout
            &&& view.shutdown_timeout == config.shutdown_timeout
        }),
{
}

/// A submission is taken exactly where the queue does not shut down, there is a
/// queue of that name, and the payload has at most a mebibyte. Otherwise the first
/// of these that fails is the reason.
pub proof fn lemma_submissions_are_judged(view: CoordinatorView, queue: Seq<char>, len: nat)
    ensures
        ({
            let fault = Coordinator::submit_fault(view, queue, len);
            let known = exists|i: int|
                0 <= i < view.queues.len() && (#[trigger] view.queues[i]).name == queue;
            &&& fault is None <==> !view.shutting_down && known && len <= 1_048_576
            &&& view.shutting_down ==> fault == Some(Fault::ShuttingDown)
            &&& !view.shutting_down && !known ==> fault == Some(Fault::QueueNotFound(queue))
            &&& !view.shutting_down && known && len > 1_048_576 ==> fault == Some(
                Fault::PayloadTooLarge(len, 1_048_576),
            )
        }),
{
}

/// A cancellation is taken exactly where the job exists and is queued, running or
/// waiting for a retry.
pub proof fn lemma_cancellations_are_judged(view: CoordinatorView, id: u128)
    ensures
        ({
            let fault = Coordinator::cancel_fault(view, id);
            let state = view.jobs[id].state;
            &&& fault is None <==> view.jobs.contains_key(id) && (state == JobState::Queued || state
                == JobState::Running || state == JobState::RetryWaiting)
            &&& !view.jobs.contains_key(id) ==> fault is Some && fault->Some_0 is JobNotFound
            &&& view.jobs.contains_key(id) && fault is Some ==> fault == Some(
                Fault::InvalidTransition { from: state, to: JobState::Cancelled },
            )
        }),
{
}

/// A lease is the one that a job has exactly where it stands among the leases.
pub proof fn lemma_held_leases_are_listed(view: CoordinatorView, id: u128, lease_id: u64)
    requires
        view.well_formed(),
    ensures
        view.holds_lease(id, lease_id) <==> exists|k: int|
            0 <= k < view.leases.len() && (#[trigger] view.leases[k]).job == id
                && view.leases[k].lease_id == lease_id,
{
    if exists|k: int|
        0 <= k < view.leases.len() && (#[trigger] view.leases[k]).job == id
            && view.leases[k].lease_id == lease_id {
        let k = choose|k: int|
            0 <= k < view.leases.len() && (#[trigger] view.leases[k]).job == id
                && view.leases[k].lease_id == lease_id;
        laws::lemma_lease_found(view, id, k);
    }
}

/// What may be applied: a submission of a job that is not there, to a queue that
/// is; a lease of the next epoch, of a job at the front of a queue, to a worker
/// that waits; an end or a retry under a lease that stands; and a cancellation of a
/// job that has not ended.
pub proof fn lemma_admitted_records(view: CoordinatorView, record: RecordView)
    requires
        view.well_formed(),
    ensures
        view.admits(record) ==> match record {
            RecordView::JobSubmitted { id, queue, .. } => {
                &&& !view.jobs.contains_key(id)
                &&& exists|i: int|
                    0 <= i < view.queues.len() && (#[trigger] view.queues[i]).name == queue
            },
            RecordView::JobLeased { id, lease_id, .. } => {
                &&& view.parked.len() > 0
                &&& lease_id == view.next_lease_epoch < u64::MAX
                &&& exists|i: int|
                    0 <= i < view.queues.len() && (#[trigger] view.queues[i]).ready.len() > 0
                        && view.queues[i].ready[0] == id
            },
            RecordView::JobRetryScheduled { id, lease_id, .. } => stands(view, id, lease_id),
            RecordView::JobCompleted { id, lease_id, .. } => stands(view, id, lease_id),
            RecordView::JobDead { id, lease_id, .. } => stands(view, id, lease_id),
            RecordView::JobCancelled { id, .. } => {
                &&& view.jobs.contains_key(id)
                &&& view.jobs[id].state != JobState::Completed
                &&& view.jobs[id].state != JobState::Dead
                &&& view.jobs[id].state != JobState::Cancelled
            },
        },
{
    if view.admits(record) {
        match record {
            RecordView::JobLeased { .. } => {
                lemma_lease_takes_the_front(view, record, Clock { now: 0, wall: UnixMillis(0) });
            },
            RecordView::JobRetryScheduled { id, lease_id, .. } => {
                lemma_held_leases_are_listed(view, id, lease_id);
            },
            RecordView::JobCompleted { id, lease_id, .. } => {
                lemma_held_leases_are_listed(view, id, lease_id);
            },
            RecordView::JobDead { id, lease_id, .. } => {
                lemma_held_leases_are_listed(view, id, lease_id);
            },
            _ => {},
        }
    }
}

/// Whether a lease stands among those of the coordinator.
pub open spec fn stands(view: CoordinatorView, id: u128, lease_id: u64) -> bool {
    exists|k: int|
        0 <= k < view.leases.len() && (#[trigger] view.leases[k]).job == id
            && view.leases[k].lease_id == lease_id
}

/// A command changes nothing at once, with three exceptions: a worker that asks for
/// a job joins the end of the line, unless the queue shuts down; an outcome under a
/// lease that does not stand is counted; and a shutdown sends the waiting workers
/// away and sets the time by which running jobs have to end.
pub proof fn lemma_commands_change_little(view: CoordinatorView, command: Command, clock: Clock)
    requires
        view.well_formed(),
    ensures
        ({
            let after = Coordinator::changed_by(view, command, clock);
            match command {
                Command::FetchWork { worker } => {
                    let n = view.parked.len() as int;
                    &&& view.shutting_down ==> after == view
                    &&& !view.shutting_down ==> {
                        &&& after.parked.len() == n + 1
                        &&& after.parked[n] == worker
                        &&& forall|k: int|
                            0 <= k < n ==> #[trigger] after.parked[k] == view.parked[k]
                        &&& after == (CoordinatorView { parked: after.parked, ..view })
                    }
                },
                Command::WorkerOutcome { id, lease_id, .. } => {
                    &&& stands(view, id.0, lease_id.0) ==> after == view
                    &&& !stands(view, id.0, lease_id.0) ==> {
                        &&& counts(
                            view.totals.stale_outcomes,
                            after.totals.stale_outcomes,
                            true,
                        )
                        &&& after.totals.submitted == view.totals.submitted
                        &&& after.totals.retried == view.totals.retried
                        &&& after == (CoordinatorView { totals: after.totals, ..view })
                    }
                },
                Command::Shutdown => {
                    &&& after.shutting_down
                    &&& after.parked.len() == 0
                    &&& clock.now + view.shutdown_timeout <= u128::MAX ==> after.drain_deadline
                        == clock.now + view.shutdown_timeout
                    &&& clock.now + view.shutdown_timeout > u128::MAX ==> after.drain_deadline
                        == u128::MAX
                    &&& after == (CoordinatorView {
                        shutting_down: true,
                        parked: after.parked,
                        drain_deadline: after.drain_deadline,
                        ..view
                    })
                },
                _ => after == view,
            }
        }),
{
    if let Command::WorkerOutcome { id, lease_id, .. } = command {
        lemma_held_leases_are_listed(view, id.0, lease_id.0);
    }
}

/// What a command is answered with: what is to be persisted for a submission, a
/// cancellation and an outcome that counts, the job that was asked for, or why not.
pub proof fn lemma_commands_are_answered(
    view: CoordinatorView,
    command: Command,
    clock: Clock,
    sample: u32,
    step: Step,
)
    requires
        view.well_formed(),
        Coordinator::answers(view, command, clock, sample, step),
    ensures
        match command {
            Command::Submit { id, queue, spec } => {
                let known = exists|i: int|
                    0 <= i < view.queues.len() && (#[trigger] view.queues[i]).name == queue@;
                if !view.shutting_down && known && spec.payload@.len() <= 1_048_576 {
                    step matches Step::Persist(record) && record@ == (RecordView::JobSubmitted {
                        id: id.0,
                        queue: queue@,
                        payload: spec.payload@,
                        max_attempts: spec.max_attempts,
                        created_at: clock.wall.0,
                    })
                } else {
                    step is Refuse
                }
            },
            Command::Status { id } => if view.jobs.contains_key(id.0) {
                step matches Step::Job(job) && job@ == view.jobs[id.0]
            } else {
                step matches Step::Refuse(error) && error@ is JobNotFound
            },
            Command::Cancel { id } => if view.jobs.contains_key(id.0) && (view.jobs[id.0].state
                == JobState::Queued || view.jobs[id.0].state == JobState::Running
                || view.jobs[id.0].state == JobState::RetryWaiting) {
                step matches Step::Persist(record) && record@ == (RecordView::JobCancelled {
                    id: id.0,
                    cancelled_at: clock.wall.0,
                })
            } else {
                step is Refuse
            },
            Command::Stats => step is Figures,
            Command::FetchWork { .. } => if view.shutting_down {
                step is Dismiss
            } else {
                step is Park
            },
            Command::WorkerOutcome { id, lease_id, outcome } => {
                let job = view.jobs[id.0];
                if !stands(view, id.0, lease_id.0) {
                    step is Stale
                } else {
                    &&& step matches Step::Persist(record)
                    &&& record@.job() == id.0
                    &&& record@ is JobCompleted <==> outcome == WorkerOutcome::Success
                    &&& record@ is JobRetryScheduled <==> job.attempts < job.max_attempts && (
                    outcome == WorkerOutcome::Retryable || outcome == WorkerOutcome::Panic)
                    &&& record@ is JobCompleted || record@ is JobRetryScheduled || record@ is JobDead
                }
            },
            Command::Shutdown => step matches Step::Drain(idle) && idle@ == view.parked,
        },
{
    if let Command::WorkerOutcome { id, lease_id, .. } = command {
        lemma_held_leases_are_listed(view, id.0, lease_id.0);
    }
}

/// How often the job of an identifier was leased.
pub open spec fn leases_of(events: Seq<Event>, id: u128) -> nat
    decreases events.len(),
{
    if events.len() == 0 {
        0
    } else {
        leases_of(events.drop_last(), id) + (match events.last() {
            Event::Record { record: RecordView::JobLeased { id: leased, .. }, .. } => if leased
                == id {
                1nat
            } else {
                0
            },
            _ => 0,
        })
    }
}

/// Whether leases count one attempt more and retries are of jobs with attempts
/// left.
pub open spec fn keeps_count(view: CoordinatorView, events: Seq<Event>) -> bool
    decreases events.len(),
{
    events.len() > 0 ==> {
        let before = figures::run(view, events.drop_last());
        &&& keeps_count(view, events.drop_last())
        &&& match events.last() {
            Event::Record { record: RecordView::JobLeased { id, attempt, .. }, .. } => attempt
                == before.jobs[id].attempts + 1,
            Event::Record { record: RecordView::JobRetryScheduled { id, .. }, .. } =>
                before.jobs[id].attempts < before.jobs[id].max_attempts,
            _ => true,
        }
    }
}

/// A job is run as often as it is leased, and no more often than it allows, which
/// is once in any case.
pub proof fn lemma_jobs_run_as_often_as_allowed(
    config: RuntimeConfig,
    events: Seq<Event>,
    id: u128,
)
    requires
        config.valid(),
        figures::may_run(Coordinator::initial(config), events, config.queues@),
        keeps_count(Coordinator::initial(config), events),
    ensures
        ({
            let after = figures::run(Coordinator::initial(config), events);
            &&& !after.jobs.contains_key(id) ==> leases_of(events, id) == 0
            &&& after.jobs.contains_key(id) ==> {
                let job = after.jobs[id];
                let most = if job.max_attempts > 1 {
                    job.max_attempts as nat
                } else {
                    1
                };
                &&& leases_of(events, id) == job.attempts <= most
                &&& job.state == JobState::Queued || job.state == JobState::RetryWaiting
                    ==> job.attempts < most
            }
        }),
    decreases events.len(),
{
    let start = Coordinator::initial(config);
    if events.len() > 0 {
        let rest = events.drop_last();
        lemma_jobs_run_as_often_as_allowed(config, rest, id);
        figures::lemma_new_is_in_order(config);
        figures::lemma_runs_keep_order(start, rest, config.queues@);
        let before = figures::run(start, rest);
        let after = figures::run(start, events);
        match events.last() {
            Event::Record { record, clock } => match record {
                RecordView::JobSubmitted { .. } => {
                    lemma_submission_goes_last(before, record, clock);
                },
                RecordView::JobLeased { .. } => {
                    lemma_lease_takes_the_front(before, record, clock);
                    if id == record.job() {
                        assert(before.jobs.contains_key(id));
                    }
                },
                RecordView::JobRetryScheduled { .. } => {
                    lemma_failure_schedules_a_retry(before, record, clock);
                    laws::lemma_admitted_end(before, record);
                },
                RecordView::JobCancelled { .. } => {
                    lemma_cancellation_ends(before, record, clock);
                },
                _ => {
                    lemma_end_ends(before, record, clock);
                    laws::lemma_admitted_end(before, record);
                },
            },
            Event::Retries { now } => {
                lemma_due_retries_line_up(before, now);
                if before.jobs.contains_key(id) {
                    assert(after.jobs.contains_key(id));
                }
            },
            Event::Taken { command, clock } => {
                lemma_commands_change_little(before, command, clock);
            },
        }
    }
}

/// A shutdown is over once no job runs or the shutdown timeout has passed since it
/// began, and not before; and there is none before it begins.
pub proof fn lemma_shutdown_waits_for_running_jobs(view: CoordinatorView, began: u128, now: u128)
    ensures
        ({
            let after = Coordinator::draining(view, began);
            &&& after.leases == view.leases
            &&& view.leases.len() == 0 ==> Coordinator::drained(after, now)
            &&& view.leases.len() > 0 && began + view.shutdown_timeout <= u128::MAX ==> (
            Coordinator::drained(after, now) <==> now >= began + view.shutdown_timeout)
            &&& view.leases.len() > 0 && began + view.shutdown_timeout > u128::MAX ==> (
            Coordinator::drained(after, now) <==> now == u128::MAX)
        }),
        !view.shutting_down ==> !Coordinator::drained(view, now),
{
}

/// Giving up running jobs takes every lease and leaves each job, also the running
/// ones, as it is: whatever their workers still report is stale.
pub proof fn lemma_given_up_jobs_stay_as_they_are(view: CoordinatorView, id: u128, lease_id: u64)
    ensures
        ({
            let after = Coordinator::given_up(view);
            &&& after.leases.len() == 0
            &&& !after.holds_lease(id, lease_id)
            &&& after.jobs == view.jobs
            &&& after == (CoordinatorView {
                leases: after.leases,
                abandoned: after.abandoned,
                ..view
            })
            &&& after.abandoned
        }),
{
}

/// A record gives a place back exactly where its queue has one unfinished job less
/// afterwards.
pub proof fn lemma_places_are_given_back(view: CoordinatorView, record: RecordView, clock: Clock)
    requires
        view.well_formed(),
        view.admits(record),
    ensures
        ({
            let after = view.after(record, clock);
            let queue = after.jobs[record.job()].queue;
            Coordinator::gives_back_place(record) <==> promises::unfinished(
                after.jobs,
                queue,
            ).len() == promises::unfinished(view.jobs, queue).len() - 1
        }),
{
    let after = view.after(record, clock);
    let queue = after.jobs[record.job()].queue;
    promises::lemma_places(view, record, clock, queue);
    promises::lemma_admitted_job(view, record, clock);
}

/// The lease that a record takes is the one that its job had, and the job has none
/// afterwards. A submission and a lease take none.
pub proof fn lemma_revoked_lease_was_held(
    view: CoordinatorView,
    record: RecordView,
    clock: Clock,
    lease_id: u64,
)
    requires
        view.well_formed(),
        view.admits(record),
    ensures
        Coordinator::takes_lease(view, record) == Some(lease_id) <==> !(record is JobSubmitted)
            && !(record is JobLeased) && stands(view, record.job(), lease_id),
        Coordinator::takes_lease(view, record) is Some ==> !stands(
            view.after(record, clock),
            record.job(),
            lease_id,
        ),
{
    let id = record.job();
    let after = view.after(record, clock);
    if !(record is JobSubmitted) && !(record is JobLeased) {
        promises::lemma_late_outcomes_are_stale(view, record, clock, lease_id);
        promises::lemma_admitted_job(view, record, clock);
        if stands(after, id, lease_id) {
            let k = choose|k: int|
                0 <= k < after.leases.len() && (#[trigger] after.leases[k]).job == id
                    && after.leases[k].lease_id == lease_id;
            laws::lemma_lease_found(after, id, k);
        }
        if stands(view, id, lease_id) {
            let k = choose|k: int|
                0 <= k < view.leases.len() && (#[trigger] view.leases[k]).job == id
                    && view.leases[k].lease_id == lease_id;
            laws::lemma_lease_found(view, id, k);
        }
        if Coordinator::takes_lease(view, record) == Some(lease_id) {
            let k = model::lease_index(view.leases, id);
            assert(view.leases[k].job == id);
        }
    }
}

/// A worker is told what was submitted: the queue, the payload and the limit of the
/// job that it gets, with the next lease and an attempt more than the job has had.
pub proof fn lemma_worker_is_told(view: CoordinatorView, leased_at: i64, leased: LeasedJob)
    requires
        view.well_formed(),
        Coordinator::can_dispatch(view),
        Coordinator::tells(leased, view, Coordinator::next_lease(view, leased_at)),
    ensures
        ({
            let job = view.jobs[leased.context.id.0];
            &&& view.jobs.contains_key(leased.context.id.0)
            &&& job.id == leased.context.id.0
            &&& job.state == JobState::Queued
            &&& leased.context.queue@ == job.queue
            &&& leased.context.payload@ == job.payload
            &&& leased.context.max_attempts == job.max_attempts
            &&& job.attempts < u32::MAX ==> leased.context.attempt == job.attempts + 1
            &&& leased.lease_id.0 == view.next_lease_epoch
        }),
{
    lemma_leases_count_attempts(view, leased_at);
    let id = leased.context.id.0;
    let i = choose|i: int|
        0 <= i < view.queues.len() && (#[trigger] view.queues[i]).ready.len() > 0
            && view.queues[i].ready[0] == id;
    assert(view.queues[i].ready[0] == id);
}

/// Nothing is to be done before the moment that the coordinator asks to be woken at:
/// no retry is taken and no lease has run out. At that moment something is.
pub proof fn lemma_nothing_is_due_before(
    view: CoordinatorView,
    deadline: Option<u128>,
    now: u128,
)
    requires
        view.well_formed(),
        Coordinator::wakes(view, deadline),
    ensures
        deadline is None || now < deadline->Some_0 ==> view.after_due_retries(now) == view
            && view.expired(now, 0) is None,
        deadline is Some && now >= deadline->Some_0 ==> view.after_due_retries(now).retries.len()
            < view.retries.len() || view.expired(now, 0) is Some,
{
    promises::lemma_expired_leases_are_found(view, now, 0);
    if deadline is None || now < deadline->Some_0 {
        if view.retries.len() > 0 {
            assert(view.retries[0].available_at > now);
        }
        if view.expired(now, 0) is Some {
            let k = view.expired(now, 0)->Some_0;
            assert(view.leases[k].deadline > now);
        }
    } else {
        let at = deadline->Some_0;
        if exists|k: int|
            0 <= k < view.retries.len() && at == (#[trigger] view.retries[k]).available_at {
            let k = choose|k: int|
                0 <= k < view.retries.len() && at == (#[trigger] view.retries[k]).available_at;
            assert(view.retries[0].available_at <= view.retries[k].available_at);
            lemma_taken_retries_leave(view.after_retry(), now);
        } else {
            let k = choose|k: int|
                0 <= k < view.leases.len() && at == (#[trigger] view.leases[k]).deadline;
            assert(view.leases[k].deadline <= now);
        }
    }
}

/// Taking retries leaves no more of them.
proof fn lemma_taken_retries_leave(view: CoordinatorView, now: u128)
    ensures
        view.after_due_retries(now).retries.len() <= view.retries.len(),
    decreases view.retries.len(),
{
    if view.retries.len() > 0 && view.retries[0].available_at <= now {
        lemma_taken_retries_leave(view.after_retry(), now);
    }
}

} // verus!
