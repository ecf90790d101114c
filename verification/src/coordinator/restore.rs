//! Taking up work where a log left it.

use crate::config::{QueueConfig, RuntimeConfig};
use crate::coordinator::figures;
use crate::coordinator::laws;
use crate::coordinator::model;
use crate::coordinator::model::{Clock, CoordinatorView, GlobalStats, QueueView, RetryEntry};
use crate::coordinator::promises;
use crate::coordinator::state::Coordinator;
use crate::recovery;
use crate::recovery::{RecoveredState, ReplayView};
use crate::stats;
use crate::store;
use crate::types::{JobState, JobView};
use crate::wal::record::RecordView;
use vstd::prelude::*;

verus! {

/// The retries to come, given when each is due on the wall clock.
pub open spec fn schedule(retries: Seq<(u128, i64)>, clock: Clock) -> Seq<RetryEntry>
    decreases retries.len(),
{
    if retries.len() == 0 {
        Seq::empty()
    } else {
        let (id, at) = retries.last();
        model::with_retry(
            schedule(retries.drop_last(), clock),
            RetryEntry { available_at: model::monotonic(clock, at), job: id },
        )
    }
}

/// The jobs that are ready in a queue, in the order of the entries: those whose
/// queue it is, each where it stands first.
pub open spec fn ready_in(
    entries: Seq<(Seq<char>, u128)>,
    jobs: Map<u128, JobView>,
    queue: Seq<char>,
) -> Seq<u128>
    decreases entries.len(),
{
    if entries.len() == 0 {
        Seq::empty()
    } else {
        let before = ready_in(entries.drop_last(), jobs, queue);
        let (name, id) = entries.last();
        if name == queue && jobs[id].queue == queue && !before.contains(id) {
            before.push(id)
        } else {
            before
        }
    }
}

/// A queue that takes up recovered work. What it has counted it counts from the
/// jobs.
pub open spec fn restored_queue(
    name: Seq<char>,
    entries: Seq<(Seq<char>, u128)>,
    jobs: Map<u128, JobView>,
) -> QueueView {
    QueueView {
        name,
        ready: ready_in(entries, jobs, name),
        submitted: stats::figure(store::jobs_of(jobs, name).len()),
        completed: stats::figure(store::jobs_in(jobs, name, JobState::Completed).len()),
        dead: stats::figure(store::jobs_in(jobs, name, JobState::Dead).len()),
        cancelled: stats::figure(store::jobs_in(jobs, name, JobState::Cancelled).len()),
    }
}

/// The state of a coordinator that takes up recovered work.
pub open spec fn restored(
    fresh: CoordinatorView,
    state: RecoveredState,
    clock: Clock,
) -> CoordinatorView {
    let entries = recovery::entry_views(state.queued_jobs@);
    CoordinatorView {
        jobs: state.store@,
        queues: fresh.queues.map_values(
            |q: QueueView| restored_queue(q.name, entries, state.store@),
        ),
        retries: schedule(recovery::retry_views(state.retry_jobs@), clock),
        next_lease_epoch: state.next_lease_epoch,
        totals: GlobalStats {
            submitted: state.submitted,
            retried: state.retried,
            stale_outcomes: 0,
        },
        ..fresh
    }
}

/// Whether a state was recovered from a log and fits the configured queues.
pub open spec fn is_recovered(state: RecoveredState, queues: Seq<QueueConfig>) -> bool {
    &&& exists|records: Seq<RecordView>, now: i64|
        state.rebuilt_from(#[trigger] recovery::reconciled(records, now))
    &&& recovery::all_configured(
        queues,
        recovery::entry_views(state.queued_jobs@),
        recovery::retry_views(state.retry_jobs@),
        state.store@,
    )
}

/// Whether no job waits twice.
pub open spec fn waits_once(entries: Seq<(Seq<char>, u128)>) -> bool {
    forall|i: int, j: int|
        0 <= i < j < entries.len() ==> (#[trigger] entries[i]).1 != (#[trigger] entries[j]).1
}

/// Jobs stay in the order when others leave it.
proof fn lemma_without(order: Seq<(Seq<char>, u128)>, queue: Seq<char>, id: u128)
    ensures
        forall|entry: (Seq<char>, u128)| #[trigger]
            recovery::without(order, queue, id).contains(entry) <==> order.contains(entry)
                && entry != (queue, id),
    decreases order.len(),
{
    if order.len() > 0 {
        let rest = order.drop_last();
        lemma_without(rest, queue, id);
        let kept = recovery::without(rest, queue, id);
        let result = recovery::without(order, queue, id);
        assert forall|entry: (Seq<char>, u128)| #[trigger] result.contains(entry) <==> (
        order.contains(entry) && entry != (queue, id)) by {
            lemma_contains_last(order, entry);
            if order.last() != (queue, id) {
                assert(result.drop_last() =~= kept);
                lemma_contains_last(result, entry);
            }
        }
    }
}

/// A sequence contains its last element and what stands before it.
proof fn lemma_contains_last<A>(s: Seq<A>, a: A)
    requires
        s.len() > 0,
    ensures
        s.contains(a) <==> s.drop_last().contains(a) || s.last() == a,
{
    if s.contains(a) {
        let k = choose|k: int| 0 <= k < s.len() && s[k] == a;
        if k < s.len() - 1 {
            assert(s.drop_last()[k] == a);
        }
    }
    if s.drop_last().contains(a) {
        let k = choose|k: int| 0 <= k < s.drop_last().len() && s.drop_last()[k] == a;
        assert(s[k] == a);
    }
    if s.last() == a {
        assert(s[s.len() - 1] == a);
    }
}

/// A queued job stands in the order of its queue.
pub proof fn lemma_queued_in_order(records: Seq<RecordView>)
    ensures
        ({
            let view = recovery::replay(records);
            forall|id: u128| #[trigger]
                view.jobs.contains_key(id) ==> view.jobs[id].state == JobState::Queued
                    ==> view.order.contains((view.jobs[id].queue, id))
        }),
    decreases records.len(),
{
    if records.len() > 0 {
        lemma_queued_in_order(records.drop_last());
        let before = recovery::replay(records.drop_last());
        let record = records.last();
        let after = recovery::replay(records);
        let subject = record.job();
        assert(after == before.step(record));
        assert forall|id: u128| #[trigger] after.jobs.contains_key(id) && after.jobs[id].state
            == JobState::Queued implies after.order.contains((after.jobs[id].queue, id)) by {
            let entry = (after.jobs[id].queue, id);
            if record is JobSubmitted {
                assert(after.order =~= before.order.push(
                    (record->JobSubmitted_queue, subject),
                ));
                lemma_contains_last(after.order, entry);
                assert(after.order.drop_last() =~= before.order);
                if id != subject {
                    assert(before.jobs.contains_key(id));
                }
            } else {
                assert(id != subject || !before.jobs.contains_key(subject));
                assert(before.jobs.contains_key(id));
                lemma_without(before.order, before.jobs[subject].queue, subject);
            }
        }
    }
}

/// The queued entries are those of the order whose jobs are queued.
pub proof fn lemma_queued_entries(order: Seq<(Seq<char>, u128)>, jobs: Map<u128, JobView>)
    ensures
        forall|entry: (Seq<char>, u128)| #[trigger]
            recovery::queued(order, jobs).contains(entry) <==> order.contains(entry)
                && jobs.contains_key(entry.1) && jobs[entry.1].state == JobState::Queued,
    decreases order.len(),
{
    if order.len() > 0 {
        let rest = order.drop_last();
        lemma_queued_entries(rest, jobs);
        let kept = recovery::queued(rest, jobs);
        let result = recovery::queued(order, jobs);
        assert forall|entry: (Seq<char>, u128)| #[trigger] result.contains(entry) <==> (
        order.contains(entry) && jobs.contains_key(entry.1) && jobs[entry.1].state
            == JobState::Queued) by {
            lemma_contains_last(order, entry);
            let id = order.last().1;
            if jobs.contains_key(id) && jobs[id].state == JobState::Queued {
                assert(result.drop_last() =~= kept);
                lemma_contains_last(result, entry);
            }
        }
    }
}

/// The ready jobs of a queue are those that stand under its name and are its own,
/// each once.
proof fn lemma_ready_in(
    entries: Seq<(Seq<char>, u128)>,
    jobs: Map<u128, JobView>,
    queue: Seq<char>,
)
    ensures
        forall|id: u128| #[trigger]
            ready_in(entries, jobs, queue).contains(id) <==> entries.contains((queue, id))
                && jobs[id].queue == queue,
        ready_in(entries, jobs, queue).no_duplicates(),
    decreases entries.len(),
{
    if entries.len() > 0 {
        let rest = entries.drop_last();
        lemma_ready_in(rest, jobs, queue);
        let before = ready_in(rest, jobs, queue);
        let result = ready_in(entries, jobs, queue);
        let (name, last) = entries.last();
        let taken = name == queue && jobs[last].queue == queue && !before.contains(last);
        assert forall|id: u128| #[trigger] result.contains(id) <==> (entries.contains((queue, id))
            && jobs[id].queue == queue) by {
            lemma_contains_last(entries, (queue, id));
            if taken {
                assert(result.drop_last() =~= before);
                lemma_contains_last(result, id);
            }
        }
        assert forall|i: int, j: int| 0 <= i < result.len() && 0 <= j < result.len() && i
            != j implies result[i] != result[j] by {
            if taken {
                if i < before.len() {
                    assert(before.contains(result[i]));
                }
                if j < before.len() {
                    assert(before.contains(result[j]));
                }
            }
        }
    }
}

/// Where no job waits twice, and each waits in its own queue, the ready jobs are
/// those that wait.
proof fn lemma_ready_is_waiting(
    entries: Seq<(Seq<char>, u128)>,
    jobs: Map<u128, JobView>,
    queue: Seq<char>,
)
    requires
        waits_once(entries),
        forall|k: int|
            0 <= k < entries.len() ==> jobs[(#[trigger] entries[k]).1].queue == entries[k].0,
    ensures
        ready_in(entries, jobs, queue) == recovery::ids_in(entries, queue),
    decreases entries.len(),
{
    if entries.len() > 0 {
        let rest = entries.drop_last();
        let last = entries.last();
        assert(entries[entries.len() - 1] == last);
        assert forall|k: int| 0 <= k < rest.len() implies jobs[(#[trigger] rest[k]).1].queue
            == rest[k].0 by {
            assert(rest[k] == entries[k]);
        }
        assert forall|i: int, j: int| 0 <= i < j < rest.len() implies (#[trigger] rest[i]).1 != (
        #[trigger] rest[j]).1 by {
            assert(rest[i] == entries[i] && rest[j] == entries[j]);
        }
        lemma_ready_is_waiting(rest, jobs, queue);
        lemma_ready_in(rest, jobs, queue);
        if ready_in(rest, jobs, queue).contains(last.1) {
            let k = choose|k: int| 0 <= k < rest.len() && rest[k] == (queue, last.1);
            assert(rest[k] == entries[k]);
            assert(entries[k].1 != entries[entries.len() - 1].1);
        }
    }
}

/// The waiting retries: one for each job among `ids` that waits, and no other.
pub proof fn lemma_waiting(view: ReplayView, ids: Seq<u128>)
    requires
        ids.no_duplicates(),
    ensures
        ({
            let retries = recovery::waiting(view, ids);
            &&& forall|k: int|
                0 <= k < retries.len() ==> ids.contains((#[trigger] retries[k]).0)
                    && view.jobs[retries[k].0].state == JobState::RetryWaiting
            &&& forall|k: int, l: int|
                0 <= k < l < retries.len() ==> (#[trigger] retries[k]).0 != (
                #[trigger] retries[l]).0
            &&& forall|id: u128|
                ids.contains(id) && view.jobs[id].state == JobState::RetryWaiting ==> exists|k: int|
                    0 <= k < retries.len() && (#[trigger] retries[k]).0 == id
        }),
    decreases ids.len(),
{
    if ids.len() > 0 {
        let rest = ids.drop_last();
        assert forall|i: int, j: int| 0 <= i < rest.len() && 0 <= j < rest.len() && i
            != j implies rest[i] != rest[j] by {
            assert(rest[i] == ids[i] && rest[j] == ids[j]);
        }
        lemma_waiting(view, rest);
        let before = recovery::waiting(view, rest);
        let retries = recovery::waiting(view, ids);
        let last = ids.last();
        assert(!rest.contains(last)) by {
            if rest.contains(last) {
                let k = choose|k: int| 0 <= k < rest.len() && rest[k] == last;
                assert(ids[k] == ids[ids.len() - 1]);
            }
        }
        assert forall|k: int| 0 <= k < retries.len() implies ids.contains(
            (#[trigger] retries[k]).0,
        ) && view.jobs[retries[k].0].state == JobState::RetryWaiting by {
            if k < before.len() {
                assert(retries[k] == before[k]);
                lemma_contains_last(ids, retries[k].0);
            } else {
                lemma_contains_last(ids, last);
            }
        }
        assert forall|k: int, l: int| 0 <= k < l < retries.len() implies (#[trigger] retries[k]).0
            != (#[trigger] retries[l]).0 by {
            assert(retries[k] == before[k]);
            if l < before.len() {
                assert(retries[l] == before[l]);
            }
        }
        assert forall|id: u128|
            ids.contains(id) && view.jobs[id].state == JobState::RetryWaiting implies exists|k: int|
            0 <= k < retries.len() && (#[trigger] retries[k]).0 == id by {
            lemma_contains_last(ids, id);
            if id == last {
                assert(retries[before.len() as int].0 == id);
            } else {
                let k = choose|k: int| 0 <= k < before.len() && (#[trigger] before[k]).0 == id;
                assert(retries[k] == before[k]);
            }
        }
    }
}

/// A schedule is in order and holds each retry once.
pub proof fn lemma_schedule(retries: Seq<(u128, i64)>, clock: Clock)
    requires
        forall|k: int, l: int|
            0 <= k < l < retries.len() ==> (#[trigger] retries[k]).0 != (#[trigger] retries[l]).0,
    ensures
        ({
            let all = schedule(retries, clock);
            &&& all.len() == retries.len()
            &&& forall|k: int, l: int|
                0 <= k < l < all.len() ==> (#[trigger] all[k]).available_at <= (
                #[trigger] all[l]).available_at && all[k].job != all[l].job
            &&& forall|k: int|
                0 <= k < all.len() ==> exists|l: int|
                    0 <= l < retries.len() && (#[trigger] retries[l]).0 == (#[trigger] all[k]).job
            &&& forall|l: int|
                0 <= l < retries.len() ==> model::scheduled(all, (#[trigger] retries[l]).0)
        }),
    decreases retries.len(),
{
    if retries.len() > 0 {
        let rest = retries.drop_last();
        assert forall|k: int, l: int| 0 <= k < l < rest.len() implies (#[trigger] rest[k]).0 != (
        #[trigger] rest[l]).0 by {
            assert(rest[k] == retries[k] && rest[l] == retries[l]);
        }
        lemma_schedule(rest, clock);
        let before = schedule(rest, clock);
        let all = schedule(retries, clock);
        let (id, at) = retries.last();
        let entry = RetryEntry { available_at: model::monotonic(clock, at), job: id };
        let p = model::retry_position(before, entry.available_at);
        laws::lemma_retry_position(before, entry.available_at);
        assert(all == before.insert(p, entry));
        assert forall|k: int| 0 <= k < before.len() implies (#[trigger] before[k]).job != id by {
            let l = choose|l: int| 0 <= l < rest.len() && (#[trigger] rest[l]).0 == before[k].job;
            assert(rest[l] == retries[l]);
            assert(retries[l].0 != retries[retries.len() - 1].0);
        }
        assert forall|k: int, l: int| 0 <= k < l < all.len() implies (
        #[trigger] all[k]).available_at <= (#[trigger] all[l]).available_at && all[k].job
            != all[l].job by {
            let k1 = if k < p {
                k
            } else {
                k - 1
            };
            let l1 = if l < p {
                l
            } else {
                l - 1
            };
            if k != p {
                assert(all[k] == before[k1]);
            }
            if l != p {
                assert(all[l] == before[l1]);
            }
        }
        assert forall|k: int| 0 <= k < all.len() implies exists|l: int|
            0 <= l < retries.len() && (#[trigger] retries[l]).0 == (#[trigger] all[k]).job by {
            if k == p {
                assert(retries[retries.len() - 1].0 == all[k].job);
            } else {
                let k1 = if k < p {
                    k
                } else {
                    k - 1
                };
                assert(all[k] == before[k1]);
                let l = choose|l: int|
                    0 <= l < rest.len() && (#[trigger] rest[l]).0 == before[k1].job;
                assert(retries[l] == rest[l]);
            }
        }
        assert forall|l: int| 0 <= l < retries.len() implies model::scheduled(
            all,
            (#[trigger] retries[l]).0,
        ) by {
            if l == retries.len() - 1 {
                assert(all[p].job == id);
            } else {
                assert(rest[l] == retries[l]);
                let k = choose|k: int|
                    0 <= k < before.len() && (#[trigger] before[k]).job == rest[l].0;
                let k1 = if k < p {
                    k
                } else {
                    k + 1
                };
                assert(all[k1] == before[k]);
            }
        }
    }
}

/// A configured queue is one of the coordinator's.
proof fn lemma_configured_queue(queues: Seq<QueueConfig>, name: Seq<char>)
    requires
        recovery::capacity_of(queues, name) is Some,
    ensures
        exists|i: int| 0 <= i < queues.len() && (#[trigger] queues[i]).name@ == name,
    decreases queues.len(),
{
    if queues.last().name@ != name {
        lemma_configured_queue(queues.drop_last(), name);
        let i = choose|i: int|
            0 <= i < queues.drop_last().len() && (#[trigger] queues.drop_last()[i]).name@ == name;
        assert(queues[i].name@ == name);
    } else {
        assert(queues[queues.len() - 1].name@ == name);
    }
}

/// The jobs that were recovered as queued are in the store.
pub proof fn lemma_queued_are_stored(state: RecoveredState, queues: Seq<QueueConfig>)
    requires
        is_recovered(state, queues),
    ensures
        forall|k: int|
            0 <= k < state.queued_jobs@.len() ==> state.store@.contains_key(
                (#[trigger] state.queued_jobs@[k]).1.0,
            ),
{
    let (records, now) = choose|records: Seq<RecordView>, now: i64|
        state.rebuilt_from(#[trigger] recovery::reconciled(records, now));
    let view = recovery::replay(recovery::reconciled(records, now));
    let entries = recovery::entry_views(state.queued_jobs@);
    lemma_queued_entries(view.order, view.jobs);
    assert forall|k: int| 0 <= k < state.queued_jobs@.len() implies state.store@.contains_key(
        (#[trigger] state.queued_jobs@[k]).1.0,
    ) by {
        assert(entries[k].1 == state.queued_jobs@[k].1.0);
        assert(recovery::queued(view.order, view.jobs).contains(entries[k]));
    }
}

/// Recovered work makes a coordinator that is well formed.
pub proof fn lemma_restored_is_well_formed(
    fresh: CoordinatorView,
    queues: Seq<QueueConfig>,
    state: RecoveredState,
    clock: Clock,
)
    requires
        fresh.queues_distinct(),
        fresh.leases.len() == 0,
        fresh.cursor == 0,
        fresh.queues.len() == queues.len(),
        forall|i: int|
            0 <= i < queues.len() ==> (#[trigger] fresh.queues[i]).name == queues[i].name@,
        is_recovered(state, queues),
    ensures
        restored(fresh, state, clock).well_formed(),
{
    let after = restored(fresh, state, clock);
    let (records, now) = choose|records: Seq<RecordView>, now: i64|
        state.rebuilt_from(#[trigger] recovery::reconciled(records, now));
    let all = recovery::reconciled(records, now);
    let view = recovery::replay(all);
    let entries = recovery::entry_views(state.queued_jobs@);
    let retries = recovery::retry_views(state.retry_jobs@);
    recovery::lemma_reconciled_jobs(records, now);
    lemma_queued_in_order(all);
    lemma_queued_entries(view.order, view.jobs);
    lemma_waiting(view, view.ids);
    lemma_schedule(retries, clock);
    assert(after.jobs == view.jobs);
    assert(after.jobs.dom().finite()) by {
        assert(view.jobs.dom() =~= view.ids.to_set());
        vstd::seq_lib::seq_to_set_is_finite(view.ids);
    }
    assert forall|i: int| 0 <= i < after.queues.len() implies (#[trigger] after.queues[i]).name
        == fresh.queues[i].name && after.queues[i].ready == ready_in(
        entries,
        view.jobs,
        fresh.queues[i].name,
    ) by {}
    assert forall|i: int, k: int|
        0 <= i < after.queues.len() && 0 <= k < after.queues[i].ready.len() implies {
        let id = #[trigger] after.queues[i].ready[k];
        &&& after.jobs.contains_key(id)
        &&& after.jobs[id].state == JobState::Queued
        &&& after.jobs[id].queue == after.queues[i].name
    } by {
        let id = after.queues[i].ready[k];
        let name = fresh.queues[i].name;
        lemma_ready_in(entries, view.jobs, name);
        assert(after.queues[i].ready.contains(id));
        assert(recovery::queued(view.order, view.jobs).contains((name, id)));
    }
    assert forall|i: int| 0 <= i < after.queues.len() implies (
    #[trigger] after.queues[i]).ready.no_duplicates() by {
        lemma_ready_in(entries, view.jobs, fresh.queues[i].name);
    }
    assert forall|id: u128| #[trigger] after.jobs.contains_key(id)
        && !after.jobs[id].state.terminal() implies model::has_queue(
        after.queues,
        after.jobs[id].queue,
    ) by {
        let name = after.jobs[id].queue;
        assert(view.jobs[id].state != JobState::Running);
        if view.jobs[id].state == JobState::Queued {
            assert(view.order.contains((name, id)));
            assert(entries.contains((name, id)));
            let k = choose|k: int| 0 <= k < entries.len() && entries[k] == (name, id);
            assert(recovery::capacity_of(queues, entries[k].0) is Some);
        } else {
            assert(view.ids.contains(id));
            let k = choose|k: int| 0 <= k < retries.len() && (#[trigger] retries[k]).0 == id;
            assert(recovery::capacity_of(queues, state.store@[retries[k].0].queue) is Some);
        }
        lemma_configured_queue(queues, name);
        let i = choose|i: int| 0 <= i < queues.len() && (#[trigger] queues[i]).name@ == name;
        assert(after.queues[i].name == name);
    }
    assert forall|id: u128| #[trigger] after.jobs.contains_key(id) && after.jobs[id].state
        == JobState::Queued implies after.is_ready(id) by {
        let name = after.jobs[id].queue;
        assert(model::has_queue(after.queues, name));
        let i = model::queue_index(after.queues, name);
        assert(after.queues[i].name == name);
        lemma_ready_in(entries, view.jobs, name);
        assert(view.order.contains((name, id)));
        assert(entries.contains((name, id)));
        assert(after.queues[i].ready.contains(id));
    }
    assert forall|k: int| 0 <= k < after.retries.len() implies {
        let id = (#[trigger] after.retries[k]).job;
        &&& after.jobs.contains_key(id)
        &&& after.jobs[id].state != JobState::Queued
        &&& after.jobs[id].state != JobState::Running
    } by {
        let id = after.retries[k].job;
        let l = choose|l: int| 0 <= l < retries.len() && (#[trigger] retries[l]).0 == id;
        assert(view.ids.contains(retries[l].0));
        assert(view.jobs.contains_key(id));
    }
    assert forall|id: u128| #[trigger] after.jobs.contains_key(id) && after.jobs[id].state
        == JobState::RetryWaiting implies model::scheduled(after.retries, id) by {
        assert(view.ids.contains(id));
        let k = choose|k: int| 0 <= k < retries.len() && (#[trigger] retries[k]).0 == id;
        assert(model::scheduled(after.retries, retries[k].0));
    }
    assert(store::keyed(after.jobs));
    assert(after.queues_distinct());
}

/// Whether every submission is of a job of its own.
pub open spec fn submitted_once(records: Seq<RecordView>) -> bool {
    forall|i: int, j: int|
        0 <= i < j < records.len() && (#[trigger] records[i]) is JobSubmitted && (
        #[trigger] records[j]) is JobSubmitted ==> records[i].job() != records[j].job()
}

/// The queued jobs among `ids`, with their queues.
pub open spec fn queued_among(ids: Seq<u128>, jobs: Map<u128, JobView>) -> Seq<(Seq<char>, u128)>
    decreases ids.len(),
{
    if ids.len() == 0 {
        Seq::empty()
    } else {
        let before = queued_among(ids.drop_last(), jobs);
        let id = ids.last();
        if jobs[id].state == JobState::Queued {
            before.push((jobs[id].queue, id))
        } else {
            before
        }
    }
}

/// The entries but those of one job.
spec fn dropped(entries: Seq<(Seq<char>, u128)>, id: u128) -> Seq<(Seq<char>, u128)>
    decreases entries.len(),
{
    if entries.len() == 0 {
        Seq::empty()
    } else if entries.last().1 == id {
        dropped(entries.drop_last(), id)
    } else {
        dropped(entries.drop_last(), id).push(entries.last())
    }
}

/// A job that is queued no more drops out of the queued entries.
proof fn lemma_queued_drops(
    order: Seq<(Seq<char>, u128)>,
    queue: Seq<char>,
    jobs: Map<u128, JobView>,
    id: u128,
    job: JobView,
)
    requires
        job.state != JobState::Queued,
    ensures
        recovery::queued(order, jobs.insert(id, job)) == dropped(recovery::queued(order, jobs), id),
        recovery::queued(recovery::without(order, queue, id), jobs.insert(id, job))
            == recovery::queued(order, jobs.insert(id, job)),
    decreases order.len(),
{
    if order.len() > 0 {
        let rest = order.drop_last();
        lemma_queued_drops(rest, queue, jobs, id, job);
        let kept = recovery::queued(rest, jobs);
        assert(kept.push(order.last()).drop_last() =~= kept);
        let left = recovery::without(rest, queue, id);
        assert(left.push(order.last()).drop_last() =~= left);
    }
}

/// A job that is queued no more drops out of the queued jobs.
proof fn lemma_queued_among_drops(
    ids: Seq<u128>,
    jobs: Map<u128, JobView>,
    id: u128,
    job: JobView,
)
    requires
        job.state != JobState::Queued,
    ensures
        queued_among(ids, jobs.insert(id, job)) == dropped(queued_among(ids, jobs), id),
    decreases ids.len(),
{
    if ids.len() > 0 {
        lemma_queued_among_drops(ids.drop_last(), jobs, id, job);
        let kept = queued_among(ids.drop_last(), jobs);
        let last = ids.last();
        assert(kept.push((jobs[last].queue, last)).drop_last() =~= kept);
    }
}

/// A job that is not listed changes no list.
proof fn lemma_unlisted(
    order: Seq<(Seq<char>, u128)>,
    ids: Seq<u128>,
    jobs: Map<u128, JobView>,
    id: u128,
    job: JobView,
)
    requires
        forall|k: int| 0 <= k < order.len() ==> (#[trigger] order[k]).1 != id,
        forall|k: int| 0 <= k < ids.len() ==> #[trigger] ids[k] != id,
    ensures
        recovery::queued(order, jobs.insert(id, job)) == recovery::queued(order, jobs),
        queued_among(ids, jobs.insert(id, job)) == queued_among(ids, jobs),
    decreases order.len() + ids.len(),
{
    if order.len() > 0 {
        let rest = order.drop_last();
        assert forall|k: int| 0 <= k < rest.len() implies (#[trigger] rest[k]).1 != id by {
            assert(rest[k] == order[k]);
        }
        lemma_unlisted(rest, ids, jobs, id, job);
        assert(order[order.len() - 1] == order.last());
    }
    if ids.len() > 0 {
        let rest = ids.drop_last();
        assert forall|k: int| 0 <= k < rest.len() implies #[trigger] rest[k] != id by {
            assert(rest[k] == ids[k]);
        }
        lemma_unlisted(order, rest, jobs, id, job);
        assert(ids[ids.len() - 1] == ids.last());
    }
}

/// A job comes from a submission, and so does every entry of the order.
proof fn lemma_jobs_were_submitted(records: Seq<RecordView>)
    ensures
        ({
            let view = recovery::replay(records);
            &&& forall|id: u128| #[trigger]
                view.jobs.contains_key(id) ==> exists|i: int|
                    0 <= i < records.len() && (#[trigger] records[i]) is JobSubmitted
                        && records[i].job() == id
            &&& forall|k: int|
                0 <= k < view.order.len() ==> view.jobs.contains_key((#[trigger] view.order[k]).1)
        }),
    decreases records.len(),
{
    if records.len() > 0 {
        let rest = records.drop_last();
        lemma_jobs_were_submitted(rest);
        let before = recovery::replay(rest);
        let after = recovery::replay(records);
        let record = records.last();
        let subject = record.job();
        assert(after == before.step(record));
        assert forall|id: u128| #[trigger] after.jobs.contains_key(id) implies exists|i: int|
            0 <= i < records.len() && (#[trigger] records[i]) is JobSubmitted && records[i].job()
                == id by {
            if id == subject && record is JobSubmitted {
                assert(records[records.len() - 1] == record);
            } else {
                assert(before.jobs.contains_key(id));
                let i = choose|i: int|
                    0 <= i < rest.len() && (#[trigger] rest[i]) is JobSubmitted && rest[i].job()
                        == id;
                assert(records[i] == rest[i]);
            }
        }
        assert forall|k: int| 0 <= k < after.order.len() implies after.jobs.contains_key(
            (#[trigger] after.order[k]).1,
        ) by {
            let entry = after.order[k];
            if record is JobSubmitted {
                if k < before.order.len() {
                    assert(entry == before.order[k]);
                }
            } else {
                lemma_without(before.order, before.jobs[subject].queue, subject);
                assert(after.order.contains(entry));
                let l = choose|l: int| 0 <= l < before.order.len() && before.order[l] == entry;
                assert(before.jobs.contains_key(before.order[l].1));
            }
        }
    }
}

/// A restart keeps the order: where every submission is of a job of its own,
/// the recovered queues hold the queued jobs in the order of their submission,
/// each once, and in that order they are ready.
pub proof fn lemma_restart_keeps_order(records: Seq<RecordView>)
    requires
        submitted_once(records),
    ensures
        ({
            let view = recovery::replay(records);
            &&& recovery::queued(view.order, view.jobs) == queued_among(view.ids, view.jobs)
            &&& waits_once(recovery::queued(view.order, view.jobs))
            &&& forall|queue: Seq<char>| #[trigger]
                ready_in(recovery::queued(view.order, view.jobs), view.jobs, queue)
                    == recovery::ids_in(queued_among(view.ids, view.jobs), queue)
        }),
    decreases records.len(),
{
    let view = recovery::replay(records);
    recovery::lemma_replay_consistent(records);
    lemma_queued_among_once(view.ids, view.jobs);
    if records.len() > 0 {
        let rest = records.drop_last();
        assert forall|i: int, j: int|
            0 <= i < j < rest.len() && (#[trigger] rest[i]) is JobSubmitted && (
            #[trigger] rest[j]) is JobSubmitted implies rest[i].job() != rest[j].job() by {
            assert(rest[i] == records[i] && rest[j] == records[j]);
        }
        lemma_restart_keeps_order(rest);
        lemma_jobs_were_submitted(rest);
        recovery::lemma_replay_consistent(rest);
        let before = recovery::replay(rest);
        let record = records.last();
        let id = record.job();
        assert(view == before.step(record));
        if record is JobSubmitted {
            assert(!before.jobs.contains_key(id)) by {
                if before.jobs.contains_key(id) {
                    let i = choose|i: int|
                        0 <= i < rest.len() && (#[trigger] rest[i]) is JobSubmitted
                            && rest[i].job() == id;
                    assert(records[i] == rest[i]);
                    assert(records[records.len() - 1] == record);
                }
            }
            assert forall|k: int| 0 <= k < before.ids.len() implies #[trigger] before.ids[k]
                != id by {
                assert(before.ids.contains(before.ids[k]));
            }
            lemma_unlisted(before.order, before.ids, before.jobs, id, view.jobs[id]);
            assert(view.order.drop_last() =~= before.order);
            assert(view.ids.drop_last() =~= before.ids);
        } else if before.jobs.contains_key(id) {
            lemma_queued_drops(
                before.order,
                before.jobs[id].queue,
                before.jobs,
                id,
                view.jobs[id],
            );
            lemma_queued_among_drops(before.ids, before.jobs, id, view.jobs[id]);
        }
    }
    let entries = queued_among(view.ids, view.jobs);
    assert forall|queue: Seq<char>| #[trigger]
        ready_in(entries, view.jobs, queue) == recovery::ids_in(entries, queue) by {
        lemma_ready_is_waiting(entries, view.jobs, queue);
    }
}

/// Each job among `ids` is listed once.
proof fn lemma_queued_among_once(ids: Seq<u128>, jobs: Map<u128, JobView>)
    requires
        ids.no_duplicates(),
    ensures
        waits_once(queued_among(ids, jobs)),
        forall|k: int|
            0 <= k < queued_among(ids, jobs).len() ==> ids.contains(
                (#[trigger] queued_among(ids, jobs)[k]).1,
            ) && jobs[queued_among(ids, jobs)[k].1].queue == queued_among(ids, jobs)[k].0,
    decreases ids.len(),
{
    if ids.len() > 0 {
        let rest = ids.drop_last();
        assert forall|i: int, j: int| 0 <= i < rest.len() && 0 <= j < rest.len() && i
            != j implies rest[i] != rest[j] by {
            assert(rest[i] == ids[i] && rest[j] == ids[j]);
        }
        lemma_queued_among_once(rest, jobs);
        let before = queued_among(rest, jobs);
        let all = queued_among(ids, jobs);
        let last = ids.last();
        assert(!rest.contains(last)) by {
            if rest.contains(last) {
                let k = choose|k: int| 0 <= k < rest.len() && rest[k] == last;
                assert(ids[k] == ids[ids.len() - 1]);
            }
        }
        assert forall|k: int| 0 <= k < all.len() implies ids.contains((#[trigger] all[k]).1)
            && jobs[all[k].1].queue == all[k].0 by {
            if k < before.len() {
                assert(all[k] == before[k]);
                lemma_contains_last(ids, all[k].1);
            } else {
                lemma_contains_last(ids, last);
            }
        }
        assert forall|i: int, j: int| 0 <= i < j < all.len() implies (#[trigger] all[i]).1 != (
        #[trigger] all[j]).1 by {
            assert(all[i] == before[i]);
            if j < before.len() {
                assert(all[j] == before[j]);
            }
        }
    }
}

/// The retries of a queue are counted as their jobs are.
proof fn lemma_retries_count(
    retries: Seq<(u128, i64)>,
    jobs: Map<u128, JobView>,
    queue: Seq<char>,
)
    ensures
        recovery::retries_in(retries, jobs, queue) == store::among(
            retries.map_values(|retry: (u128, i64)| retry.0),
            |id: u128| jobs.contains_key(id) && jobs[id].queue == queue,
        ),
    decreases retries.len(),
{
    let ids = retries.map_values(|retry: (u128, i64)| retry.0);
    if retries.len() > 0 {
        lemma_retries_count(retries.drop_last(), jobs, queue);
        assert(ids.drop_last() =~= retries.drop_last().map_values(
            |retry: (u128, i64)| retry.0,
        ));
    }
}

/// No more jobs are ready in a queue than wait in it.
proof fn lemma_ready_is_not_more(
    entries: Seq<(Seq<char>, u128)>,
    jobs: Map<u128, JobView>,
    queue: Seq<char>,
)
    ensures
        ready_in(entries, jobs, queue).len() <= recovery::ids_in(entries, queue).len(),
    decreases entries.len(),
{
    if entries.len() > 0 {
        lemma_ready_is_not_more(entries.drop_last(), jobs, queue);
    }
}

/// A restored coordinator has the recovered jobs and no worker, lease or stale
/// outcome; it goes on with the next lease epoch; it has counted the submissions and
/// retries of the log; and each queue has counted its jobs, those that ended by how
/// they did. For the rest it is as a new one.
pub proof fn lemma_restored_takes_up_the_work(
    fresh: CoordinatorView,
    state: RecoveredState,
    clock: Clock,
    i: int,
)
    requires
        0 <= i < fresh.queues.len(),
    ensures
        ({
            let after = restored(fresh, state, clock);
            let q = after.queues[i];
            let all = state.store@.dom().filter(|id: u128| state.store@[id].queue == q.name).len();
            let ended = |how: JobState|
                state.store@.dom().filter(
                    |id: u128| state.store@[id].queue == q.name && state.store@[id].state == how,
                ).len();
            &&& after.jobs == state.store@
            &&& after.queues.len() == fresh.queues.len()
            &&& q.name == fresh.queues[i].name
            &&& all <= u64::MAX ==> q.submitted == all
            &&& ended(JobState::Completed) <= u64::MAX ==> q.completed == ended(JobState::Completed)
            &&& ended(JobState::Dead) <= u64::MAX ==> q.dead == ended(JobState::Dead)
            &&& ended(JobState::Cancelled) <= u64::MAX ==> q.cancelled == ended(JobState::Cancelled)
            &&& q.ready == ready_in(recovery::entry_views(state.queued_jobs@), state.store@, q.name)
            &&& after.next_lease_epoch == state.next_lease_epoch
            &&& after.totals.submitted == state.submitted
            &&& after.totals.retried == state.retried
            &&& after.totals.stale_outcomes == 0
            &&& after == (CoordinatorView {
                jobs: after.jobs,
                queues: after.queues,
                retries: after.retries,
                next_lease_epoch: after.next_lease_epoch,
                totals: after.totals,
                ..fresh
            })
        }),
{
}

/// Where a job stands first among the entries of its queue.
pub open spec fn first_at(entries: Seq<(Seq<char>, u128)>, queue: Seq<char>, id: u128, at: int) -> bool {
    &&& 0 <= at < entries.len()
    &&& entries[at] == (queue, id)
    &&& forall|k: int| 0 <= k < at ==> #[trigger] entries[k] != (queue, id)
}

/// After a restart a queue has its recovered jobs ready, each once, in the order in
/// which they first stand among the entries.
pub proof fn lemma_ready_as_recovered(
    entries: Seq<(Seq<char>, u128)>,
    jobs: Map<u128, JobView>,
    queue: Seq<char>,
)
    ensures
        ({
            let ready = ready_in(entries, jobs, queue);
            &&& ready.no_duplicates()
            &&& forall|id: u128| #[trigger]
                ready.contains(id) <==> entries.contains((queue, id)) && jobs[id].queue == queue
            &&& forall|k: int, l: int, a: int, b: int|
                0 <= k < l < ready.len() && #[trigger] first_at(entries, queue, ready[k], a)
                    && #[trigger] first_at(entries, queue, ready[l], b) ==> a < b
        }),
    decreases entries.len(),
{
    if entries.len() > 0 {
        let rest = entries.drop_last();
        lemma_ready_as_recovered(rest, jobs, queue);
        let before = ready_in(rest, jobs, queue);
        let ready = ready_in(entries, jobs, queue);
        let (name, last) = entries.last();
        assert forall|id: u128| #[trigger] ready.contains(id) <==> (entries.contains((queue, id))
            && jobs[id].queue == queue) by {
            lemma_contains_last(entries, (queue, id));
            if ready != before {
                assert(ready.drop_last() =~= before);
                lemma_contains_last(ready, id);
            }
        }
        if ready != before {
            assert forall|i: int, j: int| 0 <= i < ready.len() && 0 <= j < ready.len() && i
                != j implies ready[i] != ready[j] by {
                if i < before.len() && j < before.len() {
                    assert(ready[i] == before[i] && ready[j] == before[j]);
                } else if i < before.len() {
                    assert(before.contains(before[i]));
                } else {
                    assert(before.contains(before[j]));
                }
            }
        }
        assert forall|k: int, l: int, a: int, b: int|
            0 <= k < l < ready.len() && #[trigger] first_at(entries, queue, ready[k], a)
                && #[trigger] first_at(entries, queue, ready[l], b) implies a < b by {
            assert(ready[k] == before[k]);
            assert(before.contains(before[k]));
            assert(rest.contains((queue, ready[k])));
            let m = choose|m: int| 0 <= m < rest.len() && rest[m] == (queue, ready[k]);
            assert(entries[m] == rest[m]);
            assert(a <= m);
            lemma_first_at_front(entries, queue, ready[k], a);
            if l < before.len() {
                assert(ready[l] == before[l]);
                assert(before.contains(before[l]));
                let o = choose|o: int| 0 <= o < rest.len() && rest[o] == (queue, ready[l]);
                assert(entries[o] == rest[o]);
                assert(b <= o);
                lemma_first_at_front(entries, queue, ready[l], b);
            } else if b < rest.len() {
                assert(rest[b] == entries[b]);
                assert(rest.contains((queue, last)));
            }
        }
    }
}

proof fn lemma_first_at_front(entries: Seq<(Seq<char>, u128)>, queue: Seq<char>, id: u128, at: int)
    requires
        first_at(entries, queue, id, at),
        at < entries.len() - 1,
    ensures
        first_at(entries.drop_last(), queue, id, at),
{
    let rest = entries.drop_last();
    assert forall|k: int| 0 <= k < at implies #[trigger] rest[k] != (queue, id) by {
        assert(entries[k] == rest[k]);
    }
}

/// Recovered work takes up no more places than were counted when it was checked
/// against the configured capacities.
pub proof fn lemma_restart_keeps_places(
    fresh: CoordinatorView,
    queues: Seq<QueueConfig>,
    state: RecoveredState,
    clock: Clock,
    i: int,
)
    requires
        fresh.queues_distinct(),
        fresh.leases.len() == 0,
        !fresh.abandoned,
        fresh.cursor == 0,
        fresh.queues.len() == queues.len(),
        forall|k: int|
            0 <= k < queues.len() ==> (#[trigger] fresh.queues[k]).name == queues[k].name@,
        is_recovered(state, queues),
        0 <= i < queues.len(),
    ensures
        promises::unfinished(state.store@, queues[i].name@).len() <= recovery::live(
            recovery::entry_views(state.queued_jobs@),
            recovery::retry_views(state.retry_jobs@),
            state.store@,
            queues[i].name@,
        ),
{
    let after = restored(fresh, state, clock);
    let name = queues[i].name@;
    let jobs = state.store@;
    let entries = recovery::entry_views(state.queued_jobs@);
    let retries = recovery::retry_views(state.retry_jobs@);
    lemma_restored_is_well_formed(fresh, queues, state, clock);
    figures::lemma_places_hold_jobs(after, i);
    figures::lemma_states_part_jobs(jobs, name);
    lemma_ready_is_not_more(entries, jobs, name);
    assert(after.queues[i].name == fresh.queues[i].name);
    let (records, now) = choose|records: Seq<RecordView>, now: i64|
        state.rebuilt_from(#[trigger] recovery::reconciled(records, now));
    let view = recovery::replay(recovery::reconciled(records, now));
    recovery::lemma_reconciled_jobs(records, now);
    lemma_waiting(view, view.ids);
    let ids = retries.map_values(|retry: (u128, i64)| retry.0);
    let wanted = |id: u128| jobs.contains_key(id) && jobs[id].queue == name;
    assert(ids.no_duplicates()) by {
        assert forall|k: int, l: int| 0 <= k < ids.len() && 0 <= l < ids.len() && k
            != l implies ids[k] != ids[l] by {
            if k < l {
                assert(retries[k].0 != retries[l].0);
            } else {
                assert(retries[l].0 != retries[k].0);
            }
        }
    }
    lemma_retries_count(retries, jobs, name);
    store::lemma_among(ids, wanted);
    let waiting = store::jobs_in(jobs, name, JobState::RetryWaiting);
    assert(waiting.subset_of(ids.to_set().filter(wanted))) by {
        assert forall|id: u128| waiting.contains(id) implies ids.to_set().filter(wanted).contains(
            id,
        ) by {
            assert(view.ids.contains(id));
            let k = choose|k: int| 0 <= k < retries.len() && (#[trigger] retries[k]).0 == id;
            assert(ids[k] == id);
        }
    }
    vstd::set_lib::lemma_len_subset(waiting, ids.to_set().filter(wanted));
}

/// Settling jobs submits none.
proof fn lemma_settling_submits_none(view: ReplayView, ids: Seq<u128>, now: i64)
    ensures
        forall|k: int|
            0 <= k < recovery::settlements(view, ids, now).len() ==> !((
            #[trigger] recovery::settlements(view, ids, now)[k]) is JobSubmitted),
    decreases ids.len(),
{
    if ids.len() > 0 {
        lemma_settling_submits_none(view, ids.drop_last(), now);
    }
}

/// Where every submission is of a job of its own, there are as many jobs as
/// submissions.
proof fn lemma_submissions_are_jobs(records: Seq<RecordView>)
    requires
        submitted_once(records),
    ensures
        recovery::replay(records).ids.len() == recovery::count(records, 1),
        recovery::replay(records).jobs.dom().len() == recovery::count(records, 1),
    decreases records.len(),
{
    let view = recovery::replay(records);
    recovery::lemma_replay_consistent(records);
    assert(view.jobs.dom() =~= view.ids.to_set());
    view.ids.unique_seq_to_set();
    if records.len() > 0 {
        let rest = records.drop_last();
        assert forall|i: int, j: int|
            0 <= i < j < rest.len() && (#[trigger] rest[i]) is JobSubmitted && (
            #[trigger] rest[j]) is JobSubmitted implies rest[i].job() != rest[j].job() by {
            assert(rest[i] == records[i] && rest[j] == records[j]);
        }
        lemma_submissions_are_jobs(rest);
        lemma_jobs_were_submitted(rest);
        let record = records.last();
        let before = recovery::replay(rest);
        assert(view == before.step(record));
        if record is JobSubmitted && before.jobs.contains_key(record.job()) {
            let i = choose|i: int|
                0 <= i < rest.len() && (#[trigger] rest[i]) is JobSubmitted && rest[i].job()
                    == record.job();
            assert(records[i] == rest[i]);
            assert(records[records.len() - 1] == record);
        }
    }
}

/// The capacity that is configured for a queue is its own, where no two have one
/// name.
proof fn lemma_own_capacity(queues: Seq<QueueConfig>, i: int)
    requires
        0 <= i < queues.len(),
        forall|a: int, b: int|
            0 <= a < b < queues.len() ==> (#[trigger] queues[a]).name@ != (
            #[trigger] queues[b]).name@,
    ensures
        recovery::capacity_of(queues, queues[i].name@) == Some(queues[i].capacity),
    decreases queues.len(),
{
    if i < queues.len() - 1 {
        let rest = queues.drop_last();
        assert(queues[i].name@ != queues[queues.len() - 1].name@);
        assert forall|a: int, b: int| 0 <= a < b < rest.len() implies (#[trigger] rest[a]).name@
            != (#[trigger] rest[b]).name@ by {
            assert(rest[a] == queues[a] && rest[b] == queues[b]);
        }
        lemma_own_capacity(rest, i);
        assert(rest[i] == queues[i]);
    }
}

/// A restart leaves the queue in order: whatever the log holds, what each queue
/// has counted is what its jobs are and none is over its capacity; and where every
/// submission is of a job of its own and no queue with jobs was taken out of the
/// configuration, all jobs are accounted for.
pub proof fn lemma_restart_is_in_order(
    config: RuntimeConfig,
    state: RecoveredState,
    records: Seq<RecordView>,
    now: i64,
    clock: Clock,
)
    requires
        config.valid(),
        state.rebuilt_from(recovery::reconciled(records, now)),
        is_recovered(state, config.queues@),
        recovery::within_capacity(
            config.queues@,
            recovery::entry_views(state.queued_jobs@),
            recovery::retry_views(state.retry_jobs@),
            state.store@,
        ),
    ensures
        ({
            let view = restored(Coordinator::initial(config), state, clock);
            let queues = config.queues@;
            &&& figures::counted(view)
            &&& forall|i: int|
                0 <= i < queues.len() ==> promises::unfinished(
                    view.jobs,
                    (#[trigger] queues[i]).name@,
                ).len() <= queues[i].capacity
            &&& submitted_once(records) && (forall|id: u128| #[trigger]
                view.jobs.contains_key(id) ==> recovery::capacity_of(
                    queues,
                    view.jobs[id].queue,
                ) is Some) ==> figures::in_order(view, queues)
        }),
{
    let fresh = Coordinator::initial(config);
    let view = restored(fresh, state, clock);
    let queues = config.queues@;
    figures::lemma_new_is_in_order(config);
    lemma_restored_is_well_formed(fresh, queues, state, clock);
    assert forall|a: int, b: int| 0 <= a < b < queues.len() implies (#[trigger] queues[a]).name@
        != (#[trigger] queues[b]).name@ by {
        assert(fresh.queues[a].name != fresh.queues[b].name);
    }
    assert forall|i: int| 0 <= i < queues.len() implies promises::unfinished(
        view.jobs,
        (#[trigger] queues[i]).name@,
    ).len() <= queues[i].capacity by {
        lemma_restart_keeps_places(fresh, queues, state, clock, i);
        lemma_own_capacity(queues, i);
    }
    assert(figures::counted(view));
    if submitted_once(records) && (forall|id: u128| #[trigger]
        view.jobs.contains_key(id) ==> recovery::capacity_of(queues, view.jobs[id].queue) is Some) {
        let all = recovery::reconciled(records, now);
        lemma_settling_submits_none(
            recovery::replay(records),
            recovery::replay(records).ids,
            now,
        );
        assert forall|i: int, j: int|
            0 <= i < j < all.len() && (#[trigger] all[i]) is JobSubmitted && (
            #[trigger] all[j]) is JobSubmitted implies all[i].job() != all[j].job() by {
            let settled = recovery::reconciliation(recovery::replay(records), now);
            if j >= records.len() {
                assert(all[j] == settled[j - records.len()]);
            } else {
                assert(all[i] == records[i] && all[j] == records[j]);
            }
        }
        lemma_submissions_are_jobs(all);
        assert forall|id: u128| #[trigger] view.jobs.contains_key(id) implies model::has_queue(
            view.queues,
            view.jobs[id].queue,
        ) by {
            let name = view.jobs[id].queue;
            lemma_configured_queue(queues, name);
            let i = choose|i: int| 0 <= i < queues.len() && (#[trigger] queues[i]).name@ == name;
            assert(view.queues[i].name == name);
        }
        assert forall|i: int| 0 <= i < queues.len() implies view.queues[i].name == (
        #[trigger] queues[i]).name@ by {}
        assert(view.totals.submitted == stats::figure(view.jobs.dom().len()));
    }
}

} // verus!
