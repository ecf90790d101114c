//! How the figures of the queue hang together, and how they keep to its limits.

use crate::config;
use crate::config::{QueueConfig, RuntimeConfig};
use crate::coordinator::laws;
use crate::coordinator::model;
use crate::coordinator::model::{ActiveLease, Clock, CoordinatorView, QueueView, RetryEntry};
use crate::coordinator::promises;
use crate::coordinator::state;
use crate::coordinator::state::{Command, Coordinator};
use crate::stats;
use crate::stats::{QueueStats, StatsSnapshot};
use crate::store;
use crate::types::{JobState, JobView};
use crate::wal::record::RecordView;
use vstd::prelude::*;

verus! {

/// Whether what a queue has counted is what its jobs are.
pub open spec fn queue_counted(jobs: Map<u128, JobView>, q: QueueView) -> bool {
    &&& q.submitted == stats::figure(store::jobs_of(jobs, q.name).len())
    &&& q.completed == stats::figure(store::jobs_in(jobs, q.name, JobState::Completed).len())
    &&& q.dead == stats::figure(store::jobs_in(jobs, q.name, JobState::Dead).len())
    &&& q.cancelled == stats::figure(store::jobs_in(jobs, q.name, JobState::Cancelled).len())
}

/// Whether what the queues have counted is what their jobs are.
pub open spec fn counted(view: CoordinatorView) -> bool {
    forall|i: int| 0 <= i < view.queues.len() ==> queue_counted(view.jobs, #[trigger] view.queues[i])
}

/// Whether every job is of a queue, and every submission of a job.
pub open spec fn accounted(view: CoordinatorView) -> bool {
    &&& counted(view)
    &&& forall|id: u128| #[trigger]
        view.jobs.contains_key(id) ==> model::has_queue(view.queues, view.jobs[id].queue)
    &&& view.totals.submitted == stats::figure(view.jobs.dom().len())
}

/// How one job changes the number of those in a state.
proof fn lemma_one_job_moves(
    jobs: Map<u128, JobView>,
    id: u128,
    job: JobView,
    queue: Seq<char>,
    state: JobState,
)
    requires
        jobs.dom().finite(),
    ensures
        store::jobs_in(jobs, queue, state).finite(),
        store::jobs_in(jobs.insert(id, job), queue, state).len() == store::jobs_in(
            jobs,
            queue,
            state,
        ).len() + (if job.queue == queue && job.state == state {
            1int
        } else {
            0
        }) - (if jobs.contains_key(id) && jobs[id].queue == queue && jobs[id].state == state {
            1int
        } else {
            0
        }),
{
    let before = store::jobs_in(jobs, queue, state);
    let after = store::jobs_in(jobs.insert(id, job), queue, state);
    if job.queue == queue && job.state == state {
        assert(after =~= before.insert(id));
    } else {
        assert(after =~= before.remove(id));
    }
}

/// How one job changes the number of those of a queue.
proof fn lemma_one_job_comes(
    jobs: Map<u128, JobView>,
    id: u128,
    job: JobView,
    queue: Seq<char>,
)
    requires
        jobs.dom().finite(),
    ensures
        store::jobs_of(jobs, queue).finite(),
        store::jobs_of(jobs.insert(id, job), queue).len() == store::jobs_of(jobs, queue).len() + (
        if job.queue == queue {
            1int
        } else {
            0
        }) - (if jobs.contains_key(id) && jobs[id].queue == queue {
            1int
        } else {
            0
        }),
{
    let before = store::jobs_of(jobs, queue);
    let after = store::jobs_of(jobs.insert(id, job), queue);
    if job.queue == queue {
        assert(after =~= before.insert(id));
    } else {
        assert(after =~= before.remove(id));
    }
}

/// What a record does to the counters of a queue.
proof fn lemma_counters(view: CoordinatorView, record: RecordView, clock: Clock, i: int)
    requires
        view.well_formed(),
        view.admits(record),
        0 <= i < view.queues.len(),
    ensures
        view.after(record, clock).queues.len() == view.queues.len(),
        ({
            let q = view.queues[i];
            let next = view.after(record, clock).queues[i];
            let own = q.name == view.after(record, clock).jobs[record.job()].queue;
            &&& next.name == q.name
            &&& next.submitted == (if own && record is JobSubmitted {
                stats::bump(q.submitted)
            } else {
                q.submitted
            })
            &&& next.completed == (if own && record is JobCompleted {
                stats::bump(q.completed)
            } else {
                q.completed
            })
            &&& next.dead == (if own && record is JobDead {
                stats::bump(q.dead)
            } else {
                q.dead
            })
            &&& next.cancelled == (if own && record is JobCancelled {
                stats::bump(q.cancelled)
            } else {
                q.cancelled
            })
        }),
{
    promises::lemma_admitted_job(view, record, clock);
    if record is JobLeased {
        laws::lemma_next_queue(view.queues, view.cursor, 0);
    }
}

/// Every record keeps the account: what the queues have counted is still what
/// their jobs are, and every submission is still of a job.
pub proof fn lemma_records_keep_account(view: CoordinatorView, record: RecordView, clock: Clock)
    requires
        view.well_formed(),
        view.admits(record),
    ensures
        counted(view) ==> counted(view.after(record, clock)),
        accounted(view) ==> accounted(view.after(record, clock)),
{
    let after = view.after(record, clock);
    let id = record.job();
    let job = after.jobs[id];
    promises::lemma_admitted_job(view, record, clock);
    assert(after.jobs == view.jobs.insert(id, job));
    if counted(view) {
        assert forall|i: int| 0 <= i < after.queues.len() implies queue_counted(
            after.jobs,
            #[trigger] after.queues[i],
        ) by {
            if i < view.queues.len() {
                let q = view.queues[i];
                lemma_counters(view, record, clock, i);
                lemma_one_job_comes(view.jobs, id, job, q.name);
                lemma_one_job_moves(view.jobs, id, job, q.name, JobState::Completed);
                lemma_one_job_moves(view.jobs, id, job, q.name, JobState::Dead);
                lemma_one_job_moves(view.jobs, id, job, q.name, JobState::Cancelled);
                assert(queue_counted(view.jobs, q));
            } else {
                lemma_same_queues(view, record, clock);
            }
        }
    }
    if accounted(view) {
        lemma_same_queues(view, record, clock);
        assert forall|other: u128| #[trigger] after.jobs.contains_key(other) implies
            model::has_queue(after.queues, after.jobs[other].queue) by {
            let name = after.jobs[other].queue;
            if other != id || !(record is JobSubmitted) {
                assert(view.jobs.contains_key(other));
                assert(view.jobs[other].queue == name);
            }
            assert(model::has_queue(view.queues, name));
            let i = model::queue_index(view.queues, name);
            assert(view.queues[i].name == name);
            assert(after.queues[i].name == name);
        }
        if record is JobSubmitted {
            assert(after.jobs.dom() =~= view.jobs.dom().insert(id));
        } else {
            assert(after.jobs.dom() =~= view.jobs.dom());
        }
    }
}

/// A record leaves the queues where they are, under their names.
proof fn lemma_same_queues(view: CoordinatorView, record: RecordView, clock: Clock)
    requires
        view.well_formed(),
        view.admits(record),
    ensures
        view.after(record, clock).queues.len() == view.queues.len(),
        forall|i: int|
            0 <= i < view.queues.len() ==> (#[trigger] view.after(record, clock).queues[i]).name
                == view.queues[i].name,
{
    assert forall|i: int| 0 <= i < view.queues.len() implies (#[trigger] view.after(
        record,
        clock,
    ).queues[i]).name == view.queues[i].name by {
        lemma_counters(view, record, clock, i);
    }
    if record is JobLeased {
        laws::lemma_next_queue(view.queues, view.cursor, 0);
    }
}

/// Retries that come due keep the account, and take and give back no place.
pub proof fn lemma_due_retries_keep_account(view: CoordinatorView, now: u128)
    requires
        view.well_formed(),
    ensures
        counted(view) ==> counted(view.after_due_retries(now)),
        accounted(view) ==> accounted(view.after_due_retries(now)),
        view.after_due_retries(now).well_formed(),
        view.after_due_retries(now).abandoned == view.abandoned,
        view.after_due_retries(now).queues.len() == view.queues.len(),
        forall|i: int|
            0 <= i < view.queues.len() ==> (#[trigger] view.after_due_retries(now).queues[i]).name
                == view.queues[i].name,
        forall|queue: Seq<char>| #[trigger]
            promises::unfinished(view.after_due_retries(now).jobs, queue) == promises::unfinished(
                view.jobs,
                queue,
            ),
    decreases view.retries.len(),
{
    if view.retries.len() > 0 && view.retries[0].available_at <= now {
        let next = view.after_retry();
        laws::lemma_retry_keeps_order(view);
        lemma_due_retry_keeps_account(view);
        lemma_due_retries_keep_account(next, now);
        assert forall|i: int| 0 <= i < view.queues.len() implies (
        #[trigger] view.after_due_retries(now).queues[i]).name == view.queues[i].name by {
            assert(next.after_due_retries(now).queues[i].name == next.queues[i].name);
        }
        assert forall|queue: Seq<char>| #[trigger]
            promises::unfinished(view.after_due_retries(now).jobs, queue) == promises::unfinished(
                view.jobs,
                queue,
            ) by {
            assert(promises::unfinished(next.after_due_retries(now).jobs, queue)
                == promises::unfinished(next.jobs, queue));
        }
    }
}

/// One retry that comes due keeps the account, and takes and gives back no place.
proof fn lemma_due_retry_keeps_account(view: CoordinatorView)
    requires
        view.well_formed(),
        view.retries.len() > 0,
    ensures
        counted(view) ==> counted(view.after_retry()),
        accounted(view) ==> accounted(view.after_retry()),
        view.after_retry().queues.len() == view.queues.len(),
        forall|i: int|
            0 <= i < view.queues.len() ==> (#[trigger] view.after_retry().queues[i]).name
                == view.queues[i].name,
        forall|queue: Seq<char>| #[trigger]
            promises::unfinished(view.after_retry().jobs, queue) == promises::unfinished(
                view.jobs,
                queue,
            ),
{
    let next = view.after_retry();
    let id = view.retries[0].job;
    assert(view.jobs.contains_key(id));
    if view.jobs[id].state == JobState::RetryWaiting {
        let job = view.jobs[id].in_state(JobState::Queued);
        assert(next.jobs == view.jobs.insert(id, job));
        assert(next.jobs.dom() =~= view.jobs.dom());
        if counted(view) {
            assert forall|i: int| 0 <= i < next.queues.len() implies queue_counted(
                next.jobs,
                #[trigger] next.queues[i],
            ) by {
                let q = view.queues[i];
                lemma_one_job_comes(view.jobs, id, job, q.name);
                lemma_one_job_moves(view.jobs, id, job, q.name, JobState::Completed);
                lemma_one_job_moves(view.jobs, id, job, q.name, JobState::Dead);
                lemma_one_job_moves(view.jobs, id, job, q.name, JobState::Cancelled);
                assert(queue_counted(view.jobs, q));
            }
        }
        if accounted(view) {
            assert forall|other: u128| #[trigger] next.jobs.contains_key(other) implies
                model::has_queue(next.queues, next.jobs[other].queue) by {
                let name = view.jobs[other].queue;
                assert(view.jobs.contains_key(other));
                let i = model::queue_index(view.queues, name);
                assert(view.queues[i].name == name);
                assert(next.queues[i].name == name);
            }
        }
        assert forall|queue: Seq<char>| #[trigger] promises::unfinished(next.jobs, queue)
            == promises::unfinished(view.jobs, queue) by {
            assert(promises::unfinished(next.jobs, queue) =~= promises::unfinished(
                view.jobs,
                queue,
            ));
        }
    }
}

/// The jobs of leases, in order.
spec fn leased_jobs(leases: Seq<ActiveLease>) -> Seq<u128> {
    leases.map_values(|lease: ActiveLease| lease.job)
}

/// The jobs of retries to come, in order.
spec fn scheduled_jobs(retries: Seq<RetryEntry>) -> Seq<u128> {
    retries.map_values(|entry: RetryEntry| entry.job)
}

/// Leases of a queue are counted as their jobs are.
proof fn lemma_running_counts(
    leases: Seq<ActiveLease>,
    jobs: Map<u128, JobView>,
    queue: Seq<char>,
)
    ensures
        state::running_in(leases, jobs, queue) == store::among(
            leased_jobs(leases),
            |id: u128| jobs.contains_key(id) && jobs[id].queue == queue,
        ),
    decreases leases.len(),
{
    if leases.len() > 0 {
        lemma_running_counts(leases.drop_last(), jobs, queue);
        assert(leased_jobs(leases).drop_last() =~= leased_jobs(leases.drop_last()));
    }
}

/// Retries of a queue are counted as their jobs are.
proof fn lemma_retrying_counts(
    retries: Seq<RetryEntry>,
    jobs: Map<u128, JobView>,
    queue: Seq<char>,
)
    ensures
        state::retrying_in(retries, jobs, queue) == store::among(
            scheduled_jobs(retries),
            |id: u128|
                jobs.contains_key(id) && jobs[id].state == JobState::RetryWaiting && jobs[id].queue
                    == queue,
        ),
    decreases retries.len(),
{
    if retries.len() > 0 {
        lemma_retrying_counts(retries.drop_last(), jobs, queue);
        assert(scheduled_jobs(retries).drop_last() =~= scheduled_jobs(retries.drop_last()));
    }
}

/// Each place counts its jobs: a queue has as many ready jobs, leases and retries
/// to come as it has jobs that are queued, running and waiting, unless running
/// jobs were given up.
pub proof fn lemma_places_hold_jobs(view: CoordinatorView, i: int)
    requires
        view.well_formed(),
        0 <= i < view.queues.len(),
    ensures
        ({
            let q = view.queues[i];
            &&& q.ready.len() == store::jobs_in(view.jobs, q.name, JobState::Queued).len()
            &&& !view.abandoned ==> state::running_in(view.leases, view.jobs, q.name)
                == store::jobs_in(view.jobs, q.name, JobState::Running).len()
            &&& state::retrying_in(view.retries, view.jobs, q.name) == store::jobs_in(
                view.jobs,
                q.name,
                JobState::RetryWaiting,
            ).len()
        }),
{
    let jobs = view.jobs;
    let q = view.queues[i];
    let queued = store::jobs_in(jobs, q.name, JobState::Queued);
    assert forall|id: u128| queued.contains(id) <==> q.ready.contains(id) by {
        if queued.contains(id) {
            assert(view.is_ready(id));
            let j = choose|j: int|
                0 <= j < view.queues.len() && (#[trigger] view.queues[j]).name == jobs[id].queue
                    && view.queues[j].ready.contains(id);
            assert(view.queues[j].name == view.queues[i].name);
        }
        if q.ready.contains(id) {
            let k = choose|k: int| 0 <= k < q.ready.len() && q.ready[k] == id;
            assert(view.queues[i].ready[k] == id);
        }
    }
    assert(queued =~= q.ready.to_set());
    q.ready.unique_seq_to_set();
    if !view.abandoned {
        let ids = leased_jobs(view.leases);
        let wanted = |id: u128| jobs.contains_key(id) && jobs[id].queue == q.name;
        lemma_running_counts(view.leases, jobs, q.name);
        assert(ids.no_duplicates()) by {
            assert forall|k: int, l: int| 0 <= k < ids.len() && 0 <= l < ids.len() && k
                != l implies ids[k] != ids[l] by {
                if k < l {
                    assert(view.leases[k].job != view.leases[l].job);
                } else {
                    assert(view.leases[l].job != view.leases[k].job);
                }
            }
        }
        store::lemma_among(ids, wanted);
        let running = store::jobs_in(jobs, q.name, JobState::Running);
        assert forall|id: u128| running.contains(id) <==> ids.to_set().filter(wanted).contains(
            id,
        ) by {
            if running.contains(id) {
                assert(model::leased(view.leases, id));
                let k = model::lease_index(view.leases, id);
                assert(view.leases[k].job == id);
                assert(ids[k] == id);
            }
            if ids.contains(id) {
                let k = choose|k: int| 0 <= k < ids.len() && ids[k] == id;
                assert(view.leases[k].job == id);
            }
        }
        assert(running =~= ids.to_set().filter(wanted));
    }
    let ids = scheduled_jobs(view.retries);
    let wanted = |id: u128|
        jobs.contains_key(id) && jobs[id].state == JobState::RetryWaiting && jobs[id].queue
            == q.name;
    lemma_retrying_counts(view.retries, jobs, q.name);
    assert(ids.no_duplicates()) by {
        assert forall|k: int, l: int| 0 <= k < ids.len() && 0 <= l < ids.len() && k
            != l implies ids[k] != ids[l] by {
            if k < l {
                assert(view.retries[k].job != view.retries[l].job);
            } else {
                assert(view.retries[l].job != view.retries[k].job);
            }
        }
    }
    store::lemma_among(ids, wanted);
    let waiting = store::jobs_in(jobs, q.name, JobState::RetryWaiting);
    assert forall|id: u128| waiting.contains(id) <==> ids.to_set().filter(wanted).contains(id) by {
        if waiting.contains(id) {
            assert(model::scheduled(view.retries, id));
            let k = choose|k: int|
                0 <= k < view.retries.len() && (#[trigger] view.retries[k]).job == id;
            assert(ids[k] == id);
        }
    }
    assert(waiting =~= ids.to_set().filter(wanted));
}

/// A job of a queue is in one of its states; unless it has ended it takes up a
/// place.
pub proof fn lemma_states_part_jobs(jobs: Map<u128, JobView>, queue: Seq<char>)
    requires
        jobs.dom().finite(),
    ensures
        promises::unfinished(jobs, queue).finite(),
        store::jobs_of(jobs, queue).finite(),
        promises::unfinished(jobs, queue).len() == store::jobs_in(
            jobs,
            queue,
            JobState::Queued,
        ).len() + store::jobs_in(jobs, queue, JobState::Running).len() + store::jobs_in(
            jobs,
            queue,
            JobState::RetryWaiting,
        ).len(),
        store::jobs_of(jobs, queue).len() == promises::unfinished(jobs, queue).len()
            + store::jobs_in(jobs, queue, JobState::Completed).len() + store::jobs_in(
            jobs,
            queue,
            JobState::Dead,
        ).len() + store::jobs_in(jobs, queue, JobState::Cancelled).len(),
{
    let queued = store::jobs_in(jobs, queue, JobState::Queued);
    let running = store::jobs_in(jobs, queue, JobState::Running);
    let waiting = store::jobs_in(jobs, queue, JobState::RetryWaiting);
    let completed = store::jobs_in(jobs, queue, JobState::Completed);
    let dead = store::jobs_in(jobs, queue, JobState::Dead);
    let cancelled = store::jobs_in(jobs, queue, JobState::Cancelled);
    let live = promises::unfinished(jobs, queue);
    vstd::set_lib::lemma_set_disjoint_lens(queued, running);
    vstd::set_lib::lemma_set_disjoint_lens(queued + running, waiting);
    assert(live =~= queued + running + waiting);
    vstd::set_lib::lemma_set_disjoint_lens(live, completed);
    vstd::set_lib::lemma_set_disjoint_lens(live + completed, dead);
    vstd::set_lib::lemma_set_disjoint_lens(live + completed + dead, cancelled);
    assert(store::jobs_of(jobs, queue) =~= live + completed + dead + cancelled);
}

/// How many jobs a queue has ever had.
spec fn ever(jobs: Map<u128, JobView>) -> spec_fn(QueueView) -> nat {
    |q: QueueView| store::jobs_of(jobs, q.name).len()
}

/// The jobs that are of one of the queues.
spec fn housed(jobs: Map<u128, JobView>, queues: Seq<QueueView>) -> Set<u128> {
    jobs.dom().filter(|id: u128| model::has_queue(queues, jobs[id].queue))
}

/// The jobs of queues with different names add up.
proof fn lemma_jobs_add_up(jobs: Map<u128, JobView>, queues: Seq<QueueView>)
    requires
        jobs.dom().finite(),
        forall|i: int, j: int|
            0 <= i < j < queues.len() ==> (#[trigger] queues[i]).name != (
            #[trigger] queues[j]).name,
    ensures
        state::sum(queues, ever(jobs)) == housed(jobs, queues).len(),
        housed(jobs, queues).len() <= jobs.dom().len(),
    decreases queues.len(),
{
    vstd::set_lib::lemma_len_subset(housed(jobs, queues), jobs.dom());
    if queues.len() == 0 {
        assert(housed(jobs, queues) =~= Set::empty());
    } else {
        let rest = queues.drop_last();
        let last = queues.last();
        assert forall|i: int, j: int| 0 <= i < j < rest.len() implies (#[trigger] rest[i]).name != (
        #[trigger] rest[j]).name by {
            assert(rest[i] == queues[i] && rest[j] == queues[j]);
        }
        lemma_jobs_add_up(jobs, rest);
        let own = store::jobs_of(jobs, last.name);
        let others = housed(jobs, rest);
        assert(!model::has_queue(rest, last.name)) by {
            if model::has_queue(rest, last.name) {
                let i = model::queue_index(rest, last.name);
                assert(rest[i] == queues[i]);
                assert(queues[i].name != queues[queues.len() - 1].name);
            }
        }
        assert forall|name: Seq<char>| model::has_queue(queues, name) <==> (model::has_queue(
            rest,
            name,
        ) || name == last.name) by {
            if model::has_queue(queues, name) {
                let i = model::queue_index(queues, name);
                if i < rest.len() {
                    assert(rest[i].name == name);
                }
            }
            if model::has_queue(rest, name) {
                let i = model::queue_index(rest, name);
                assert(queues[i].name == name);
            }
            assert(queues[queues.len() - 1].name == last.name);
        }
        vstd::set_lib::lemma_set_disjoint_lens(others, own);
        assert(housed(jobs, queues) =~= others + own);
    }
}

/// Whether the parts of each queue make up its jobs.
spec fn parts_fit(view: CoordinatorView, queues: Seq<QueueView>) -> bool {
    forall|i: int|
        0 <= i < queues.len() ==> ever(view.jobs)(#[trigger] queues[i]) == state::part(
            view,
            JobState::Queued,
        )(queues[i]) + state::part(view, JobState::Running)(queues[i]) + state::part(
            view,
            JobState::RetryWaiting,
        )(queues[i]) + state::part(view, JobState::Completed)(queues[i]) + state::part(
            view,
            JobState::Dead,
        )(queues[i]) + state::part(view, JobState::Cancelled)(queues[i])
}

/// Where the parts of each queue make up its jobs, they do so of all queues.
proof fn lemma_parts_add_up(view: CoordinatorView, queues: Seq<QueueView>)
    requires
        parts_fit(view, queues),
    ensures
        state::sum(queues, ever(view.jobs)) == state::sum(
            queues,
            state::part(view, JobState::Queued),
        ) + state::sum(queues, state::part(view, JobState::Running)) + state::sum(
            queues,
            state::part(view, JobState::RetryWaiting),
        ) + state::sum(queues, state::part(view, JobState::Completed)) + state::sum(
            queues,
            state::part(view, JobState::Dead),
        ) + state::sum(queues, state::part(view, JobState::Cancelled)),
        forall|i: int|
            0 <= i < queues.len() ==> #[trigger] ever(view.jobs)(queues[i]) <= state::sum(
                queues,
                ever(view.jobs),
            ),
    decreases queues.len(),
{
    if queues.len() > 0 {
        let rest = queues.drop_last();
        assert(queues[queues.len() - 1] == queues.last());
        assert forall|i: int| 0 <= i < rest.len() implies ever(view.jobs)(#[trigger] rest[i])
            == state::part(view, JobState::Queued)(rest[i]) + state::part(
            view,
            JobState::Running,
        )(rest[i]) + state::part(view, JobState::RetryWaiting)(rest[i]) + state::part(
            view,
            JobState::Completed,
        )(rest[i]) + state::part(view, JobState::Dead)(rest[i]) + state::part(
            view,
            JobState::Cancelled,
        )(rest[i]) by {
            assert(rest[i] == queues[i]);
        }
        lemma_parts_add_up(view, rest);
        assert forall|i: int| 0 <= i < queues.len() implies #[trigger] ever(view.jobs)(queues[i])
            <= state::sum(queues, ever(view.jobs)) by {
            if i < rest.len() {
                assert(ever(view.jobs)(rest[i]) <= state::sum(rest, ever(view.jobs)));
                assert(rest[i] == queues[i]);
            }
        }
    }
}

/// A figure of one queue.
pub open spec fn column(figures: QueueStats, state: JobState) -> u64 {
    match state {
        JobState::Queued => figures.queued,
        JobState::Running => figures.running,
        JobState::RetryWaiting => figures.retrying,
        JobState::Completed => figures.completed,
        JobState::Dead => figures.dead,
        JobState::Cancelled => figures.cancelled,
    }
}

/// The sum of a figure over the queues of a snapshot.
pub open spec fn listed(per_queue: Seq<(String, QueueStats)>, state: JobState) -> nat
    decreases per_queue.len(),
{
    if per_queue.len() == 0 {
        0
    } else {
        listed(per_queue.drop_last(), state) + column(per_queue.last().1, state) as nat
    }
}

/// The sum of the submissions over the queues of a snapshot.
pub open spec fn listed_submissions(per_queue: Seq<(String, QueueStats)>) -> nat
    decreases per_queue.len(),
{
    if per_queue.len() == 0 {
        0
    } else {
        listed_submissions(per_queue.drop_last()) + per_queue.last().1.submitted as nat
    }
}

/// The figures of the queues sum up as the queues do.
proof fn lemma_listed(
    per_queue: Seq<(String, QueueStats)>,
    queues: Seq<QueueView>,
    view: CoordinatorView,
    state: JobState,
)
    requires
        per_queue.len() == queues.len(),
        forall|i: int|
            0 <= i < queues.len() ==> column((#[trigger] per_queue[i]).1, state) == state::part(
                view,
                state,
            )(queues[i]),
    ensures
        listed(per_queue, state) == state::sum(queues, state::part(view, state)),
    decreases queues.len(),
{
    if queues.len() > 0 {
        let fewer = per_queue.drop_last();
        let rest = queues.drop_last();
        assert forall|i: int| 0 <= i < rest.len() implies column((#[trigger] fewer[i]).1, state)
            == state::part(view, state)(rest[i]) by {
            assert(fewer[i] == per_queue[i] && rest[i] == queues[i]);
        }
        lemma_listed(fewer, rest, view, state);
        assert(per_queue[per_queue.len() - 1] == per_queue.last());
    }
}

/// The submissions of the queues sum up as the queues do.
proof fn lemma_listed_submissions(
    per_queue: Seq<(String, QueueStats)>,
    queues: Seq<QueueView>,
    jobs: Map<u128, JobView>,
)
    requires
        per_queue.len() == queues.len(),
        forall|i: int|
            0 <= i < queues.len() ==> (#[trigger] per_queue[i]).1.submitted == ever(jobs)(
                queues[i],
            ),
    ensures
        listed_submissions(per_queue) == state::sum(queues, ever(jobs)),
    decreases queues.len(),
{
    if queues.len() > 0 {
        let fewer = per_queue.drop_last();
        let rest = queues.drop_last();
        assert forall|i: int| 0 <= i < rest.len() implies (#[trigger] fewer[i]).1.submitted
            == ever(jobs)(rest[i]) by {
            assert(fewer[i] == per_queue[i] && rest[i] == queues[i]);
        }
        lemma_listed_submissions(fewer, rest, jobs);
        assert(per_queue[per_queue.len() - 1] == per_queue.last());
    }
}

/// Whether the figures of a queue balance: each job that was submitted is in one
/// of the states.
pub open spec fn balanced(figures: QueueStats) -> bool {
    figures.submitted == figures.queued + figures.running + figures.retrying + figures.completed
        + figures.dead + figures.cancelled
}

/// The figures add up, as long as no running job has been given up: those of each
/// queue balance, and the ones over all queues are the sums over them. Where every
/// submission is of a job of a queue, so do the figures over all queues.
pub proof fn lemma_figures_add_up(view: CoordinatorView, figures: StatsSnapshot)
    requires
        view.well_formed(),
        !view.abandoned,
        counted(view),
        state::figures_of(figures, view),
    ensures
        forall|i: int|
            0 <= i < figures.per_queue@.len() ==> balanced((#[trigger] figures.per_queue@[i]).1),
        figures.queued == listed(figures.per_queue@, JobState::Queued),
        figures.running == listed(figures.per_queue@, JobState::Running),
        figures.retrying == listed(figures.per_queue@, JobState::RetryWaiting),
        figures.completed == listed(figures.per_queue@, JobState::Completed),
        figures.dead == listed(figures.per_queue@, JobState::Dead),
        figures.cancelled == listed(figures.per_queue@, JobState::Cancelled),
        accounted(view) ==> {
            &&& figures.submitted == listed_submissions(figures.per_queue@)
            &&& figures.submitted == figures.queued + figures.running + figures.retrying
                + figures.completed + figures.dead + figures.cancelled
        },
{
    let jobs = view.jobs;
    let queues = view.queues;
    let per_queue = figures.per_queue@;
    lemma_jobs_add_up(jobs, queues);
    assert forall|i: int| 0 <= i < queues.len() implies queue_counted(jobs, queues[i])
        && store::jobs_of(jobs, queues[i].name).len() <= u64::MAX && ever(jobs)(
        #[trigger] queues[i],
    ) == state::part(view, JobState::Queued)(queues[i]) + state::part(view, JobState::Running)(
        queues[i],
    ) + state::part(view, JobState::RetryWaiting)(queues[i]) + state::part(
        view,
        JobState::Completed,
    )(queues[i]) + state::part(view, JobState::Dead)(queues[i]) + state::part(
        view,
        JobState::Cancelled,
    )(queues[i]) by {
        let name = queues[i].name;
        lemma_places_hold_jobs(view, i);
        lemma_states_part_jobs(jobs, name);
        vstd::set_lib::lemma_len_subset(store::jobs_of(jobs, name), jobs.dom());
        assert(queue_counted(jobs, queues[i]));
    }
    assert(parts_fit(view, queues));
    lemma_parts_add_up(view, queues);
    assert forall|i: int| 0 <= i < queues.len() implies {
        let f = (#[trigger] per_queue[i]).1;
        &&& f.submitted == ever(jobs)(queues[i])
        &&& forall|state: JobState| #[trigger] column(f, state) == state::part(view, state)(queues[i])
    } by {
        let f = per_queue[i].1;
        assert(f == state::queue_figures(view, i));
        assert(queue_counted(jobs, queues[i]));
        assert(ever(jobs)(queues[i]) <= u64::MAX);
        assert forall|state: JobState| #[trigger] column(f, state) == state::part(view, state)(
            queues[i],
        ) by {
            match state {
                JobState::Queued => {},
                JobState::Running => {},
                JobState::RetryWaiting => {},
                JobState::Completed => {},
                JobState::Dead => {},
                JobState::Cancelled => {},
            }
        }
    }
    lemma_listed(per_queue, queues, view, JobState::Queued);
    lemma_listed(per_queue, queues, view, JobState::Running);
    lemma_listed(per_queue, queues, view, JobState::RetryWaiting);
    lemma_listed(per_queue, queues, view, JobState::Completed);
    lemma_listed(per_queue, queues, view, JobState::Dead);
    lemma_listed(per_queue, queues, view, JobState::Cancelled);
    lemma_listed_submissions(per_queue, queues, jobs);
    assert forall|i: int| 0 <= i < per_queue.len() implies balanced(
        (#[trigger] per_queue[i]).1,
    ) by {
        let f = per_queue[i].1;
        assert(ever(jobs)(queues[i]) == state::part(view, JobState::Queued)(queues[i])
            + state::part(view, JobState::Running)(queues[i]) + state::part(
            view,
            JobState::RetryWaiting,
        )(queues[i]) + state::part(view, JobState::Completed)(queues[i]) + state::part(
            view,
            JobState::Dead,
        )(queues[i]) + state::part(view, JobState::Cancelled)(queues[i]));
        assert(column(f, JobState::Queued) == f.queued);
        assert(column(f, JobState::Running) == f.running);
        assert(column(f, JobState::RetryWaiting) == f.retrying);
        assert(column(f, JobState::Completed) == f.completed);
        assert(column(f, JobState::Dead) == f.dead);
        assert(column(f, JobState::Cancelled) == f.cancelled);
    }
    if accounted(view) {
        assert(housed(jobs, queues) =~= jobs.dom());
    }
}

/// The figures say what stands where: of each queue its name, what it has counted,
/// its ready jobs, the leases on its jobs and the retries that its jobs wait for;
/// and of all what was counted of all.
pub proof fn lemma_figures_say_what_stands(view: CoordinatorView, figures: StatsSnapshot)
    requires
        state::figures_of(figures, view),
    ensures
        figures.submitted == view.totals.submitted,
        figures.retried == view.totals.retried,
        figures.stale_outcomes == view.totals.stale_outcomes,
        figures.per_queue@.len() == view.queues.len(),
        forall|i: int|
            0 <= i < view.queues.len() ==> {
                let q = #[trigger] view.queues[i];
                let f = figures.per_queue@[i].1;
                let running = view.leases.filter(
                    |lease: ActiveLease|
                        view.jobs.contains_key(lease.job) && view.jobs[lease.job].queue == q.name,
                ).len();
                let retrying = view.retries.filter(
                    |entry: RetryEntry|
                        view.jobs.contains_key(entry.job) && view.jobs[entry.job].state
                            == JobState::RetryWaiting && view.jobs[entry.job].queue == q.name,
                ).len();
                &&& figures.per_queue@[i].0@ == q.name
                &&& f.submitted == q.submitted
                &&& f.completed == q.completed
                &&& f.dead == q.dead
                &&& f.cancelled == q.cancelled
                &&& q.ready.len() <= u64::MAX ==> f.queued == q.ready.len()
                &&& running <= u64::MAX ==> f.running == running
                &&& retrying <= u64::MAX ==> f.retrying == retrying
            },
{
    assert forall|i: int| 0 <= i < view.queues.len() implies {
        let name = (#[trigger] view.queues[i]).name;
        &&& figures.per_queue@[i].0@ == name
        &&& figures.per_queue@[i].1 == state::queue_figures(view, i)
        &&& state::running_in(view.leases, view.jobs, name) == view.leases.filter(
            |lease: ActiveLease|
                view.jobs.contains_key(lease.job) && view.jobs[lease.job].queue == name,
        ).len()
        &&& state::retrying_in(view.retries, view.jobs, name) == view.retries.filter(
            |entry: RetryEntry|
                view.jobs.contains_key(entry.job) && view.jobs[entry.job].state
                    == JobState::RetryWaiting && view.jobs[entry.job].queue == name,
        ).len()
    } by {
        assert(figures.per_queue@[i].0@ == view.queues[i].name);
        lemma_running_filtered(view.leases, view.jobs, view.queues[i].name);
        lemma_retrying_filtered(view.retries, view.jobs, view.queues[i].name);
    }
}

proof fn lemma_running_filtered(
    leases: Seq<ActiveLease>,
    jobs: Map<u128, JobView>,
    name: Seq<char>,
)
    ensures
        state::running_in(leases, jobs, name) == leases.filter(
            |lease: ActiveLease| jobs.contains_key(lease.job) && jobs[lease.job].queue == name,
        ).len(),
    decreases leases.len(),
{
    reveal(Seq::filter);
    if leases.len() > 0 {
        lemma_running_filtered(leases.drop_last(), jobs, name);
    }
}

proof fn lemma_retrying_filtered(
    retries: Seq<RetryEntry>,
    jobs: Map<u128, JobView>,
    name: Seq<char>,
)
    ensures
        state::retrying_in(retries, jobs, name) == retries.filter(
            |entry: RetryEntry|
                jobs.contains_key(entry.job) && jobs[entry.job].state == JobState::RetryWaiting
                    && jobs[entry.job].queue == name,
        ).len(),
    decreases retries.len(),
{
    reveal(Seq::filter);
    if retries.len() > 0 {
        lemma_retrying_filtered(retries.drop_last(), jobs, name);
    }
}

/// The figures of a queue are the numbers of its jobs, state by state, as long as
/// no running job has been given up.
pub proof fn lemma_figures_count_the_jobs(view: CoordinatorView, figures: StatsSnapshot, i: int)
    requires
        view.well_formed(),
        !view.abandoned,
        counted(view),
        state::figures_of(figures, view),
        0 <= i < view.queues.len(),
    ensures
        ({
            let name = view.queues[i].name;
            let f = figures.per_queue@[i].1;
            let of = |state: JobState|
                view.jobs.dom().filter(
                    |id: u128| view.jobs[id].queue == name && view.jobs[id].state == state,
                ).len();
            &&& f.submitted == view.jobs.dom().filter(
                |id: u128| view.jobs[id].queue == name,
            ).len()
            &&& f.queued == of(JobState::Queued)
            &&& f.running == of(JobState::Running)
            &&& f.retrying == of(JobState::RetryWaiting)
            &&& f.completed == of(JobState::Completed)
            &&& f.dead == of(JobState::Dead)
            &&& f.cancelled == of(JobState::Cancelled)
        }),
{
    let jobs = view.jobs;
    let name = view.queues[i].name;
    lemma_places_hold_jobs(view, i);
    lemma_states_part_jobs(jobs, name);
    vstd::set_lib::lemma_len_subset(store::jobs_of(jobs, name), jobs.dom());
    assert(queue_counted(jobs, view.queues[i]));
    assert(figures.per_queue@[i].1 == state::queue_figures(view, i));
}

/// A queue within its capacity stays within it, as long as a submission is taken
/// only while there is a place for it.
pub proof fn lemma_capacity_is_kept(
    view: CoordinatorView,
    record: RecordView,
    clock: Clock,
    queue: Seq<char>,
    capacity: nat,
)
    requires
        view.well_formed(),
        view.admits(record),
        promises::unfinished(view.jobs, queue).len() <= capacity,
        record is JobSubmitted && record->JobSubmitted_queue == queue ==> promises::unfinished(
            view.jobs,
            queue,
        ).len() < capacity,
    ensures
        promises::unfinished(view.after(record, clock).jobs, queue).len() <= capacity,
{
    promises::lemma_places(view, record, clock, queue);
}

/// What happens to a coordinator: a record that was persisted is applied, retries
/// come due, or a command is taken.
pub enum Event {
    Record { record: RecordView, clock: Clock },
    Retries { now: u128 },
    Taken { command: Command, clock: Clock },
}

/// The state after an event.
pub open spec fn next(view: CoordinatorView, event: Event) -> CoordinatorView {
    match event {
        Event::Record { record, clock } => view.after(record, clock),
        Event::Retries { now } => view.after_due_retries(now),
        Event::Taken { command, clock } => Coordinator::changed_by(view, command, clock),
    }
}

/// Whether an event may happen: a record has to be admitted, and a submission
/// needs a place in its queue.
pub open spec fn may_happen(
    view: CoordinatorView,
    event: Event,
    queues: Seq<QueueConfig>,
) -> bool {
    match event {
        Event::Record { record, .. } => {
            &&& view.admits(record)
            &&& record matches RecordView::JobSubmitted { queue, .. } ==> forall|i: int|
                0 <= i < queues.len() && (#[trigger] queues[i]).name@ == queue
                    ==> promises::unfinished(view.jobs, queue).len() < queues[i].capacity
        },
        _ => true,
    }
}

/// The state after events, in order.
pub open spec fn run(view: CoordinatorView, events: Seq<Event>) -> CoordinatorView
    decreases events.len(),
{
    if events.len() == 0 {
        view
    } else {
        next(run(view, events.drop_last()), events.last())
    }
}

/// Whether events may happen, in order.
pub open spec fn may_run(
    view: CoordinatorView,
    events: Seq<Event>,
    queues: Seq<QueueConfig>,
) -> bool
    decreases events.len(),
{
    events.len() > 0 ==> {
        &&& may_run(view, events.drop_last(), queues)
        &&& may_happen(run(view, events.drop_last()), events.last(), queues)
    }
}

/// Whether a coordinator has the configured queues, each within its capacity, and
/// an account of all jobs.
pub open spec fn in_order(view: CoordinatorView, queues: Seq<QueueConfig>) -> bool {
    &&& view.well_formed()
    &&& !view.abandoned
    &&& accounted(view)
    &&& view.queues.len() == queues.len()
    &&& forall|i: int|
        0 <= i < queues.len() ==> {
            &&& view.queues[i].name == (#[trigger] queues[i]).name@
            &&& promises::unfinished(view.jobs, queues[i].name@).len() <= queues[i].capacity
        }
}

/// A new coordinator is in order.
pub proof fn lemma_new_is_in_order(config: RuntimeConfig)
    requires
        config.valid(),
    ensures
        in_order(Coordinator::initial(config), config.queues@),
{
    let view = Coordinator::initial(config);
    assert forall|a: int, b: int| 0 <= a < b < view.queues.len() implies (
    #[trigger] view.queues[a]).name != (#[trigger] view.queues[b]).name by {
        assert(config::queue_fault(config.queues@, b) is None);
        assert(config.queues@[a].name@ != config.queues@[b].name@);
    }
    assert(view.jobs.dom() =~= Set::empty());
    assert forall|i: int| 0 <= i < view.queues.len() implies queue_counted(
        view.jobs,
        #[trigger] view.queues[i],
    ) by {
        let name = view.queues[i].name;
        assert(store::jobs_of(view.jobs, name) =~= Set::empty());
        assert(store::jobs_in(view.jobs, name, JobState::Completed) =~= Set::empty());
        assert(store::jobs_in(view.jobs, name, JobState::Dead) =~= Set::empty());
        assert(store::jobs_in(view.jobs, name, JobState::Cancelled) =~= Set::empty());
    }
    assert forall|i: int| 0 <= i < config.queues@.len() implies promises::unfinished(
        view.jobs,
        (#[trigger] config.queues@[i]).name@,
    ).len() <= config.queues@[i].capacity by {
        assert(promises::unfinished(view.jobs, config.queues@[i].name@) =~= Set::empty());
    }
}

/// Whatever happens, a coordinator in order stays so.
pub proof fn lemma_events_keep_order(
    view: CoordinatorView,
    event: Event,
    queues: Seq<QueueConfig>,
)
    requires
        in_order(view, queues),
        may_happen(view, event, queues),
    ensures
        in_order(next(view, event), queues),
{
    let after = next(view, event);
    match event {
        Event::Record { record, clock } => {
            promises::lemma_admitted_job(view, record, clock);
            lemma_records_keep_account(view, record, clock);
            lemma_same_queues(view, record, clock);
            assert forall|i: int| 0 <= i < queues.len() implies {
                &&& after.queues[i].name == (#[trigger] queues[i]).name@
                &&& promises::unfinished(after.jobs, queues[i].name@).len() <= queues[i].capacity
            } by {
                lemma_capacity_is_kept(
                    view,
                    record,
                    clock,
                    queues[i].name@,
                    queues[i].capacity as nat,
                );
                assert(after.queues[i].name == view.queues[i].name);
            }
        },
        Event::Retries { now } => {
            lemma_due_retries_keep_account(view, now);
            assert forall|i: int| 0 <= i < queues.len() implies {
                &&& after.queues[i].name == (#[trigger] queues[i]).name@
                &&& promises::unfinished(after.jobs, queues[i].name@).len() <= queues[i].capacity
            } by {
                assert(after.queues[i].name == view.queues[i].name);
                assert(promises::unfinished(after.jobs, queues[i].name@) == promises::unfinished(
                    view.jobs,
                    queues[i].name@,
                ));
            }
        },
        Event::Taken { .. } => {
            laws::lemma_same_work(view, after);
        },
    }
}

/// However long it runs, a coordinator that was in order stays so.
pub proof fn lemma_runs_keep_order(
    view: CoordinatorView,
    events: Seq<Event>,
    queues: Seq<QueueConfig>,
)
    requires
        in_order(view, queues),
        may_run(view, events, queues),
    ensures
        in_order(run(view, events), queues),
    decreases events.len(),
{
    if events.len() > 0 {
        lemma_runs_keep_order(view, events.drop_last(), queues);
        lemma_events_keep_order(run(view, events.drop_last()), events.last(), queues);
    }
}

/// Whether figures add up and keep to the limits: every job that was submitted is
/// in one of the states, each figure is its sum over the queues, the queues are
/// the configured ones, and none has more unfinished jobs than its capacity.
pub open spec fn sound(figures: StatsSnapshot, queues: Seq<QueueConfig>) -> bool {
    let per_queue = figures.per_queue@;
    &&& figures.submitted == figures.queued + figures.running + figures.retrying
        + figures.completed + figures.dead + figures.cancelled
    &&& figures.submitted == listed_submissions(per_queue)
    &&& figures.queued == listed(per_queue, JobState::Queued)
    &&& figures.running == listed(per_queue, JobState::Running)
    &&& figures.retrying == listed(per_queue, JobState::RetryWaiting)
    &&& figures.completed == listed(per_queue, JobState::Completed)
    &&& figures.dead == listed(per_queue, JobState::Dead)
    &&& figures.cancelled == listed(per_queue, JobState::Cancelled)
    &&& per_queue.len() == queues.len()
    &&& forall|i: int|
        0 <= i < queues.len() ==> {
            let (name, of_queue) = #[trigger] per_queue[i];
            &&& name@ == queues[i].name@
            &&& balanced(of_queue)
            &&& of_queue.queued + of_queue.running + of_queue.retrying <= queues[i].capacity
        }
}

/// The figures of a coordinator that was in order at first are sound, whatever has
/// happened since.
pub proof fn lemma_figures_of_runs(
    view: CoordinatorView,
    events: Seq<Event>,
    queues: Seq<QueueConfig>,
    figures: StatsSnapshot,
)
    requires
        in_order(view, queues),
        may_run(view, events, queues),
        state::figures_of(figures, run(view, events)),
    ensures
        sound(figures, queues),
{
    let now = run(view, events);
    lemma_runs_keep_order(view, events, queues);
    lemma_figures_add_up(now, figures);
    assert forall|i: int| 0 <= i < queues.len() implies {
        let (name, of_queue) = #[trigger] figures.per_queue@[i];
        &&& name@ == queues[i].name@
        &&& balanced(of_queue)
        &&& of_queue.queued + of_queue.running + of_queue.retrying <= queues[i].capacity
    } by {
        assert(now.queues[i].name == queues[i].name@);
        lemma_places_hold_jobs(now, i);
        lemma_states_part_jobs(now.jobs, queues[i].name@);
        assert(figures.per_queue@[i].1 == state::queue_figures(now, i));
        assert(balanced(figures.per_queue@[i].1));
    }
}

/// The figures of a coordinator that was new at first are sound, after any sequence
/// of records, due retries and commands.
pub proof fn lemma_figures_from_the_start(
    config: RuntimeConfig,
    events: Seq<Event>,
    figures: StatsSnapshot,
)
    requires
        config.valid(),
        may_run(Coordinator::initial(config), events, config.queues@),
        state::figures_of(figures, run(Coordinator::initial(config), events)),
    ensures
        sound(figures, config.queues@),
{
    lemma_new_is_in_order(config);
    lemma_figures_of_runs(Coordinator::initial(config), events, config.queues@, figures);
}

} // verus!
