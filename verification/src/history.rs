//! What a log tells of its jobs, read off its records one by one.

use crate::config::{QueueConfig, RuntimeConfig};
use crate::coordinator::laws;
use crate::coordinator::model;
use crate::coordinator::model::{Clock, CoordinatorView, RetryEntry};
use crate::coordinator::restore;
use crate::coordinator::state;
use crate::recovery;
use crate::recovery::{RecoveredState, ReplayView};
use crate::types::{JobState, JobView};
use crate::wal::error::WalFault;
use crate::wal::layout;
use crate::wal::record::RecordView;
use crate::wal::scanner;
use vstd::prelude::*;

verus! {

/// Whether no record behind a position is about a job.
pub open spec fn last_word(records: Seq<RecordView>, at: int, id: u128) -> bool {
    &&& 0 <= at < records.len()
    &&& records[at].job() == id
    &&& forall|j: int| at < j < records.len() ==> (#[trigger] records[j]).job() != id
}

/// Whether a job was submitted by the record at a position, and not again behind
/// it.
pub open spec fn last_submission(records: Seq<RecordView>, at: int, id: u128) -> bool {
    &&& 0 <= at < records.len()
    &&& records[at] is JobSubmitted
    &&& records[at].job() == id
    &&& forall|j: int|
        at < j < records.len() && (#[trigger] records[j]) is JobSubmitted ==> records[j].job() != id
}

/// A job is known exactly where it was submitted.
pub proof fn lemma_known_jobs_were_submitted(records: Seq<RecordView>, id: u128)
    ensures
        recovery::replay(records).jobs.contains_key(id) <==> exists|i: int|
            0 <= i < records.len() && (#[trigger] records[i]) is JobSubmitted && records[i].job()
                == id,
    decreases records.len(),
{
    if records.len() > 0 {
        let rest = records.drop_last();
        let last = records.last();
        lemma_known_jobs_were_submitted(rest, id);
        assert(recovery::replay(records) == recovery::replay(rest).step(last));
        if last is JobSubmitted && last.job() == id {
            assert(records[records.len() - 1] == last);
        }
        if recovery::replay(rest).jobs.contains_key(id) {
            let i = choose|i: int|
                0 <= i < rest.len() && (#[trigger] rest[i]) is JobSubmitted && rest[i].job() == id;
            assert(records[i] == rest[i]);
        }
        if exists|i: int|
            0 <= i < records.len() && (#[trigger] records[i]) is JobSubmitted && records[i].job()
                == id {
            let i = choose|i: int|
                0 <= i < records.len() && (#[trigger] records[i]) is JobSubmitted
                    && records[i].job() == id;
            if i < rest.len() {
                assert(rest[i] == records[i]);
            }
        }
    }
}

/// A job is in the state that the last record about it takes it to. Where that is a
/// lease, it is the lease that the job has; where it is a retry, the job waits until
/// the time of that very record; and where the job has ended it has neither.
pub proof fn lemma_last_record_decides(records: Seq<RecordView>, id: u128, at: int)
    requires
        recovery::replay(records).jobs.contains_key(id),
        last_word(records, at, id),
    ensures
        ({
            let view = recovery::replay(records);
            match records[at] {
                RecordView::JobSubmitted { .. } => view.jobs[id].state == JobState::Queued,
                RecordView::JobLeased { lease_id, attempt, .. } => {
                    &&& view.jobs[id].state == JobState::Running
                    &&& view.jobs[id].attempts == attempt
                    &&& view.leases.contains_key(id)
                    &&& view.leases[id] == lease_id
                    &&& !view.available.contains_key(id)
                },
                RecordView::JobRetryScheduled { available_at, .. } => {
                    &&& view.jobs[id].state == JobState::RetryWaiting
                    &&& view.available.contains_key(id)
                    &&& view.available[id] == available_at
                    &&& !view.leases.contains_key(id)
                },
                RecordView::JobCompleted { .. } => view.jobs[id].state == JobState::Completed
                    && !view.leases.contains_key(id) && !view.available.contains_key(id),
                RecordView::JobDead { .. } => view.jobs[id].state == JobState::Dead
                    && !view.leases.contains_key(id) && !view.available.contains_key(id),
                RecordView::JobCancelled { .. } => view.jobs[id].state == JobState::Cancelled
                    && !view.leases.contains_key(id) && !view.available.contains_key(id),
            }
        }),
    decreases records.len(),
{
    let rest = records.drop_last();
    let last = records.last();
    assert(recovery::replay(records) == recovery::replay(rest).step(last));
    if at < rest.len() {
        assert(records[records.len() - 1] == last);
        assert(last.job() != id);
        assert(rest[at] == records[at]);
        assert forall|j: int| at < j < rest.len() implies (#[trigger] rest[j]).job() != id by {
            assert(rest[j] == records[j]);
        }
        lemma_last_record_decides(rest, id, at);
    } else {
        assert(records[at] == last);
        assert(recovery::replay(rest).jobs.contains_key(id) || last is JobSubmitted);
    }
}

/// A job is what it was submitted as, the last time. It has been tried as often as
/// the last lease since then says, or never if there is none.
pub proof fn lemma_job_is_as_submitted(records: Seq<RecordView>, id: u128, at: int)
    requires
        last_submission(records, at, id),
    ensures
        ({
            let job = recovery::replay(records).jobs[id];
            &&& recovery::replay(records).jobs.contains_key(id)
            &&& job.id == id
            &&& job.queue == records[at]->JobSubmitted_queue
            &&& job.payload == records[at]->JobSubmitted_payload
            &&& job.max_attempts == records[at]->JobSubmitted_max_attempts
            &&& job.created_at == records[at]->JobSubmitted_created_at
            &&& (forall|j: int|
                at < j < records.len() && (#[trigger] records[j]) is JobLeased
                    ==> records[j].job() != id) ==> job.attempts == 0
            &&& forall|l: int|
                {
                    &&& at < l < records.len()
                    &&& (#[trigger] records[l]) is JobLeased
                    &&& records[l].job() == id
                    &&& forall|j: int|
                        l < j < records.len() && (#[trigger] records[j]) is JobLeased
                            ==> records[j].job() != id
                } ==> job.attempts == records[l]->JobLeased_attempt
        }),
    decreases records.len(),
{
    let rest = records.drop_last();
    let last = records.last();
    let view = recovery::replay(records);
    let before = recovery::replay(rest);
    assert(view == before.step(last));
    assert(records[records.len() - 1] == last);
    if at < rest.len() {
        assert(rest[at] == records[at]);
        assert forall|j: int|
            at < j < rest.len() && (#[trigger] rest[j]) is JobSubmitted implies rest[j].job()
            != id by {
            assert(rest[j] == records[j]);
        }
        lemma_job_is_as_submitted(rest, id, at);
        if forall|j: int|
            at < j < records.len() && (#[trigger] records[j]) is JobLeased ==> records[j].job()
                != id {
            assert forall|j: int|
                at < j < rest.len() && (#[trigger] rest[j]) is JobLeased implies rest[j].job()
                != id by {
                assert(rest[j] == records[j]);
            }
        }
        assert forall|l: int|
            {
                &&& at < l < records.len()
                &&& (#[trigger] records[l]) is JobLeased
                &&& records[l].job() == id
                &&& forall|j: int|
                    l < j < records.len() && (#[trigger] records[j]) is JobLeased
                        ==> records[j].job() != id
            } implies view.jobs[id].attempts == records[l]->JobLeased_attempt by {
            if l < rest.len() {
                assert(rest[l] == records[l]);
                assert forall|j: int|
                    l < j < rest.len() && (#[trigger] rest[j]) is JobLeased implies rest[j].job()
                    != id by {
                    assert(rest[j] == records[j]);
                }
            }
        }
    }
}

/// Whether a list is made of elements of another, in the order that they have
/// there.
pub open spec fn drawn_from<A>(list: Seq<A>, source: Seq<A>) -> bool {
    exists|places: Seq<int>| #[trigger] drawn_at(list, source, places)
}

/// Whether a list is made of the elements at the given places of another, which
/// increase.
pub open spec fn drawn_at<A>(list: Seq<A>, source: Seq<A>, places: Seq<int>) -> bool {
    &&& places.len() == list.len()
    &&& forall|k: int|
        0 <= k < list.len() ==> 0 <= #[trigger] places[k] < source.len() && source[places[k]]
            == list[k]
    &&& forall|k: int, l: int| 0 <= k < l < list.len() ==> #[trigger] places[k] < #[trigger] places[l]
}

/// What is drawn from a list is still so when one more stands behind it, and when
/// that one is drawn too.
proof fn lemma_drawn_on<A>(list: Seq<A>, source: Seq<A>, more: A)
    requires
        drawn_from(list, source),
    ensures
        drawn_from(list, source.push(more)),
        drawn_from(list.push(more), source.push(more)),
{
    let places = choose|places: Seq<int>| #[trigger] drawn_at(list, source, places);
    assert(drawn_at(list, source.push(more), places));
    assert(drawn_at(list.push(more), source.push(more), places.push(source.len() as int)));
}

/// What is drawn from what is drawn is drawn.
proof fn lemma_drawn_twice<A>(list: Seq<A>, middle: Seq<A>, source: Seq<A>)
    requires
        drawn_from(list, middle),
        drawn_from(middle, source),
    ensures
        drawn_from(list, source),
{
    let inner = choose|places: Seq<int>| #[trigger] drawn_at(list, middle, places);
    let outer = choose|places: Seq<int>| #[trigger] drawn_at(middle, source, places);
    let places = Seq::new(list.len(), |k: int| outer[inner[k]]);
    assert forall|k: int, l: int| 0 <= k < l < list.len() implies #[trigger] places[k]
        < #[trigger] places[l] by {
        assert(inner[k] < inner[l]);
    }
    assert forall|k: int| 0 <= k < list.len() implies 0 <= #[trigger] places[k] < source.len()
        && source[places[k]] == list[k] by {
        assert(0 <= inner[k] < middle.len());
    }
    assert(drawn_at(list, source, places));
}

/// Everything is drawn from itself.
proof fn lemma_drawn_whole<A>(list: Seq<A>)
    ensures
        drawn_from(list, list),
{
    assert(drawn_at(list, list, Seq::new(list.len(), |k: int| k)));
}

/// The submissions of a log, in order.
pub open spec fn submissions(records: Seq<RecordView>) -> Seq<(Seq<char>, u128)>
    decreases records.len(),
{
    if records.len() == 0 {
        Seq::empty()
    } else {
        let before = submissions(records.drop_last());
        match records.last() {
            RecordView::JobSubmitted { id, queue, .. } => before.push((queue, id)),
            _ => before,
        }
    }
}

proof fn lemma_without_is_drawn(order: Seq<(Seq<char>, u128)>, queue: Seq<char>, id: u128)
    ensures
        drawn_from(recovery::without(order, queue, id), order),
    decreases order.len(),
{
    if order.len() == 0 {
        assert(recovery::without(order, queue, id) =~= order);
        lemma_drawn_whole(order);
    } else {
        lemma_without_is_drawn(order.drop_last(), queue, id);
        lemma_drawn_on(
            recovery::without(order.drop_last(), queue, id),
            order.drop_last(),
            order.last(),
        );
        assert(order.drop_last().push(order.last()) =~= order);
    }
}

proof fn lemma_queued_is_drawn(order: Seq<(Seq<char>, u128)>, jobs: Map<u128, JobView>)
    ensures
        drawn_from(recovery::queued(order, jobs), order),
        forall|k: int|
            0 <= k < recovery::queued(order, jobs).len() ==> jobs.contains_key(
                (#[trigger] recovery::queued(order, jobs)[k]).1,
            ) && jobs[recovery::queued(order, jobs)[k].1].state == JobState::Queued,
    decreases order.len(),
{
    if order.len() == 0 {
        assert(recovery::queued(order, jobs) =~= order);
        lemma_drawn_whole(order);
    } else {
        lemma_queued_is_drawn(order.drop_last(), jobs);
        lemma_drawn_on(
            recovery::queued(order.drop_last(), jobs),
            order.drop_last(),
            order.last(),
        );
        assert(order.drop_last().push(order.last()) =~= order);
    }
}

proof fn lemma_order_is_drawn(records: Seq<RecordView>)
    ensures
        drawn_from(recovery::replay(records).order, submissions(records)),
    decreases records.len(),
{
    let view = recovery::replay(records);
    if records.len() == 0 {
        assert(view.order =~= submissions(records));
        lemma_drawn_whole(view.order);
    } else {
        let rest = records.drop_last();
        let before = recovery::replay(rest);
        lemma_order_is_drawn(rest);
        assert(view == before.step(records.last()));
        match records.last() {
            RecordView::JobSubmitted { id, queue, .. } => {
                lemma_drawn_on(before.order, submissions(rest), (queue, id));
            },
            RecordView::JobRetryScheduled { .. } => {},
            _ => {
                let id = records.last().job();
                if before.jobs.contains_key(id) {
                    lemma_without_is_drawn(before.order, before.jobs[id].queue, id);
                    lemma_drawn_twice(view.order, before.order, submissions(rest));
                }
            },
        }
    }
}

/// The queued jobs of a recovered state are those whose last record is their
/// submission, in the order in which they were submitted.
pub proof fn lemma_queued_jobs_in_order(state: RecoveredState, records: Seq<RecordView>)
    requires
        state.rebuilt_from(records),
    ensures
        drawn_from(recovery::entry_views(state.queued_jobs@), submissions(records)),
        forall|k: int|
            0 <= k < state.queued_jobs@.len() ==> {
                let id = (#[trigger] state.queued_jobs@[k]).1.0;
                state.store@.contains_key(id) && state.store@[id].state == JobState::Queued
            },
        forall|id: u128| #[trigger]
            state.store@.contains_key(id) && state.store@[id].state == JobState::Queued
                ==> recovery::entry_views(state.queued_jobs@).contains(
                (state.store@[id].queue, id),
            ),
{
    let view = recovery::replay(records);
    let entries = recovery::entry_views(state.queued_jobs@);
    lemma_order_is_drawn(records);
    lemma_queued_is_drawn(view.order, view.jobs);
    lemma_drawn_twice(entries, view.order, submissions(records));
    restore::lemma_queued_in_order(records);
    restore::lemma_queued_entries(view.order, view.jobs);
    assert forall|k: int| 0 <= k < state.queued_jobs@.len() implies {
        let id = (#[trigger] state.queued_jobs@[k]).1.0;
        state.store@.contains_key(id) && state.store@[id].state == JobState::Queued
    } by {
        assert(entries[k].1 == state.queued_jobs@[k].1.0);
    }
}

/// Every known job has a record that is the last one about it.
proof fn lemma_last_record_exists(records: Seq<RecordView>, id: u128) -> (at: int)
    requires
        recovery::replay(records).jobs.contains_key(id),
    ensures
        last_word(records, at, id),
    decreases records.len(),
{
    let rest = records.drop_last();
    let last = records.last();
    assert(recovery::replay(records) == recovery::replay(rest).step(last));
    if last.job() == id {
        assert(records[records.len() - 1] == last);
        records.len() - 1
    } else {
        assert(recovery::replay(rest).jobs.contains_key(id));
        let at = lemma_last_record_exists(rest, id);
        assert(records[at] == rest[at]);
        assert forall|j: int| at < j < records.len() implies (#[trigger] records[j]).job() != id by {
            if j < rest.len() {
                assert(records[j] == rest[j]);
            }
        }
        at
    }
}

/// The retries of a waiting list are each of a job that waits, with its time.
proof fn lemma_waiting_times(view: ReplayView, ids: Seq<u128>)
    ensures
        forall|k: int|
            0 <= k < recovery::waiting(view, ids).len() ==> (#[trigger] recovery::waiting(
                view,
                ids,
            )[k]).1 == view.available[recovery::waiting(view, ids)[k].0],
    decreases ids.len(),
{
    if ids.len() > 0 {
        lemma_waiting_times(view, ids.drop_last());
        let before = recovery::waiting(view, ids.drop_last());
        let all = recovery::waiting(view, ids);
        assert forall|k: int| 0 <= k < all.len() implies (#[trigger] all[k]).1
            == view.available[all[k].0] by {
            if k < before.len() {
                assert(all[k] == before[k]);
            }
        }
    }
}

/// The retries of a recovered state: one for each job whose last record is a retry,
/// due at the time of that record, and no other.
pub proof fn lemma_retries_are_the_last(state: RecoveredState, records: Seq<RecordView>)
    requires
        state.rebuilt_from(records),
    ensures
        forall|k: int|
            0 <= k < state.retry_jobs@.len() ==> exists|r: int|
                {
                    &&& last_word(records, r, state.retry_jobs@[k].0.0)
                    &&& #[trigger] records[r] is JobRetryScheduled
                    &&& records[r]->JobRetryScheduled_available_at == (
                    #[trigger] state.retry_jobs@[k]).1.0
                },
        forall|r: int, id: u128|
            last_word(records, r, id) && #[trigger] records[r] is JobRetryScheduled
                && #[trigger] state.store@.contains_key(id) ==> exists|k: int|
                0 <= k < state.retry_jobs@.len() && (#[trigger] state.retry_jobs@[k]).0.0 == id,
        forall|k: int, l: int|
            0 <= k < l < state.retry_jobs@.len() ==> (#[trigger] state.retry_jobs@[k]).0.0 != (
            #[trigger] state.retry_jobs@[l]).0.0,
{
    let view = recovery::replay(records);
    let retries = recovery::retry_views(state.retry_jobs@);
    recovery::lemma_replay_consistent(records);
    restore::lemma_waiting(view, view.ids);
    lemma_waiting_times(view, view.ids);
    assert forall|k: int| 0 <= k < state.retry_jobs@.len() implies exists|r: int|
        {
            &&& last_word(records, r, state.retry_jobs@[k].0.0)
            &&& #[trigger] records[r] is JobRetryScheduled
            &&& records[r]->JobRetryScheduled_available_at == (
            #[trigger] state.retry_jobs@[k]).1.0
        } by {
        let id = state.retry_jobs@[k].0.0;
        assert(retries[k] == (id, state.retry_jobs@[k].1.0));
        assert(view.ids.contains(retries[k].0));
        assert(view.jobs.contains_key(id));
        let r = lemma_last_record_exists(records, id);
        lemma_last_record_decides(records, id, r);
        assert(records[r] is JobRetryScheduled);
    }
    assert forall|r: int, id: u128|
        last_word(records, r, id) && #[trigger] records[r] is JobRetryScheduled
            && #[trigger] state.store@.contains_key(id) implies exists|k: int|
        0 <= k < state.retry_jobs@.len() && (#[trigger] state.retry_jobs@[k]).0.0 == id by {
        lemma_last_record_decides(records, id, r);
        assert(view.jobs.contains_key(id));
        assert(view.ids.contains(id));
        let k = choose|k: int| 0 <= k < retries.len() && (#[trigger] retries[k]).0 == id;
        assert(state.retry_jobs@[k].0.0 == id);
    }
    assert forall|k: int, l: int| 0 <= k < l < state.retry_jobs@.len() implies (
    #[trigger] state.retry_jobs@[k]).0.0 != (#[trigger] state.retry_jobs@[l]).0.0 by {
        assert(retries[k].0 == state.retry_jobs@[k].0.0);
        assert(retries[l].0 == state.retry_jobs@[l].0.0);
    }
}

/// A schedule has each retry at its moment.
proof fn lemma_schedule_times(retries: Seq<(u128, i64)>, clock: Clock)
    requires
        forall|k: int, l: int|
            0 <= k < l < retries.len() ==> (#[trigger] retries[k]).0 != (#[trigger] retries[l]).0,
    ensures
        forall|l: int|
            0 <= l < retries.len() ==> restore::schedule(retries, clock).contains(
                RetryEntry {
                    available_at: model::monotonic(clock, (#[trigger] retries[l]).1),
                    job: retries[l].0,
                },
            ),
    decreases retries.len(),
{
    if retries.len() > 0 {
        let rest = retries.drop_last();
        assert forall|k: int, l: int| 0 <= k < l < rest.len() implies (#[trigger] rest[k]).0 != (
        #[trigger] rest[l]).0 by {
            assert(rest[k] == retries[k] && rest[l] == retries[l]);
        }
        lemma_schedule_times(rest, clock);
        let before = restore::schedule(rest, clock);
        let all = restore::schedule(retries, clock);
        let (id, at) = retries.last();
        let entry = RetryEntry { available_at: model::monotonic(clock, at), job: id };
        let p = model::retry_position(before, entry.available_at);
        assert(0 <= p <= before.len()) by {
            restore::lemma_schedule(rest, clock);
            laws::lemma_retry_position(before, entry.available_at);
        }
        assert(all == before.insert(p, entry));
        assert forall|l: int| 0 <= l < retries.len() implies all.contains(
            RetryEntry {
                available_at: model::monotonic(clock, (#[trigger] retries[l]).1),
                job: retries[l].0,
            },
        ) by {
            let wanted = RetryEntry {
                available_at: model::monotonic(clock, retries[l].1),
                job: retries[l].0,
            };
            if l < rest.len() {
                assert(rest[l] == retries[l]);
                let k = choose|k: int| 0 <= k < before.len() && before[k] == wanted;
                if k < p {
                    assert(all[k] == wanted);
                } else {
                    assert(all[k + 1] == wanted);
                }
            } else {
                assert(all[p] == wanted);
            }
        }
    }
}

/// Retry timers are rebuilt from the persisted times: where the last record about a
/// job is a retry, the restored coordinator has one retry to come for it, as far
/// ahead as the time of that record is, or at once where that is past.
pub proof fn lemma_restored_retries_keep_their_time(
    fresh: CoordinatorView,
    state: RecoveredState,
    records: Seq<RecordView>,
    clock: Clock,
    id: u128,
    at: int,
)
    requires
        state.rebuilt_from(records),
        state.store@.contains_key(id),
        last_word(records, at, id),
        records[at] is JobRetryScheduled,
    ensures
        ({
            let retries = restore::restored(fresh, state, clock).retries;
            let due = records[at]->JobRetryScheduled_available_at;
            let ahead = if due > clock.wall.0 {
                (due - clock.wall.0) * 1_000_000
            } else {
                0
            };
            exists|k: int|
                {
                    &&& 0 <= k < retries.len()
                    &&& (#[trigger] retries[k]).job == id
                    &&& retries[k].available_at == (if clock.now + ahead <= u128::MAX {
                        clock.now + ahead
                    } else {
                        u128::MAX as int
                    })
                    &&& forall|l: int|
                        0 <= l < retries.len() && (#[trigger] retries[l]).job == id ==> l == k
                }
        }),
{
    let view = recovery::replay(records);
    let list = recovery::retry_views(state.retry_jobs@);
    let retries = restore::restored(fresh, state, clock).retries;
    recovery::lemma_replay_consistent(records);
    restore::lemma_waiting(view, view.ids);
    lemma_waiting_times(view, view.ids);
    lemma_last_record_decides(records, id, at);
    assert(view.ids.contains(id));
    let m = choose|m: int| 0 <= m < list.len() && (#[trigger] list[m]).0 == id;
    lemma_schedule_times(list, clock);
    restore::lemma_schedule(list, clock);
    let entry = RetryEntry { available_at: model::monotonic(clock, list[m].1), job: id };
    assert(retries.contains(entry));
    let k = choose|k: int| 0 <= k < retries.len() && retries[k] == entry;
    assert forall|l: int| 0 <= l < retries.len() && (#[trigger] retries[l]).job == id implies l
        == k by {
        if l < k {
            assert(retries[l].job != retries[k].job);
        }
        if k < l {
            assert(retries[k].job != retries[l].job);
        }
    }
    assert(retries[k].job == id);
}

/// Lost jobs are settled: each job whose last record is a lease gets one record,
/// under that lease. It is a retry at once, with the attempts that it has had, where
/// an attempt is left, and its end otherwise. No other job gets a record.
pub proof fn lemma_lost_jobs_are_settled(records: Seq<RecordView>, now: i64)
    ensures
        ({
            let view = recovery::replay(records);
            let settled = recovery::reconciliation(view, now);
            &&& forall|k: int|
                0 <= k < settled.len() ==> {
                    let record = #[trigger] settled[k];
                    let id = record.job();
                    let job = view.jobs[id];
                    &&& view.jobs.contains_key(id)
                    &&& job.state == JobState::Running
                    &&& job.attempts < job.max_attempts ==> record == (
                    RecordView::JobRetryScheduled {
                        id,
                        lease_id: view.leases[id],
                        attempt: job.attempts,
                        available_at: now,
                    })
                    &&& job.attempts >= job.max_attempts ==> record == (RecordView::JobDead {
                        id,
                        lease_id: view.leases[id],
                        dead_at: now,
                    })
                }
            &&& forall|k: int, l: int|
                0 <= k < l < settled.len() ==> (#[trigger] settled[k]).job() != (
                #[trigger] settled[l]).job()
            &&& forall|id: u128| #[trigger]
                view.jobs.contains_key(id) && view.jobs[id].state == JobState::Running
                    ==> exists|k: int| 0 <= k < settled.len() && (#[trigger] settled[k]).job() == id
            &&& recovery::reconciled(records, now) == records + settled
        }),
{
    let view = recovery::replay(records);
    recovery::lemma_replay_consistent(records);
    lemma_settled_among(view, view.ids, now);
    let settled = recovery::reconciliation(view, now);
    assert forall|k: int| 0 <= k < settled.len() implies view.jobs.contains_key(
        (#[trigger] settled[k]).job(),
    ) by {
        assert(view.ids.contains(settled[k].job()));
    }
    assert forall|id: u128| #[trigger] view.jobs.contains_key(id) && view.jobs[id].state
        == JobState::Running implies exists|k: int|
        0 <= k < settled.len() && (#[trigger] settled[k]).job() == id by {
        assert(view.ids.contains(id));
    }
}

proof fn lemma_settled_among(view: ReplayView, ids: Seq<u128>, now: i64)
    requires
        ids.no_duplicates(),
    ensures
        ({
            let settled = recovery::settlements(view, ids, now);
            &&& forall|k: int|
                0 <= k < settled.len() ==> {
                    let record = #[trigger] settled[k];
                    let id = record.job();
                    let job = view.jobs[id];
                    &&& ids.contains(id)
                    &&& job.state == JobState::Running
                    &&& job.attempts < job.max_attempts ==> record == (
                    RecordView::JobRetryScheduled {
                        id,
                        lease_id: view.leases[id],
                        attempt: job.attempts,
                        available_at: now,
                    })
                    &&& job.attempts >= job.max_attempts ==> record == (RecordView::JobDead {
                        id,
                        lease_id: view.leases[id],
                        dead_at: now,
                    })
                }
            &&& forall|k: int, l: int|
                0 <= k < l < settled.len() ==> (#[trigger] settled[k]).job() != (
                #[trigger] settled[l]).job()
            &&& forall|id: u128| #[trigger]
                ids.contains(id) && view.jobs[id].state == JobState::Running ==> exists|k: int|
                    0 <= k < settled.len() && (#[trigger] settled[k]).job() == id
        }),
    decreases ids.len(),
{
    if ids.len() > 0 {
        let rest = ids.drop_last();
        let last = ids.last();
        assert forall|i: int, j: int| 0 <= i < rest.len() && 0 <= j < rest.len() && i
            != j implies rest[i] != rest[j] by {
            assert(rest[i] == ids[i] && rest[j] == ids[j]);
        }
        lemma_settled_among(view, rest, now);
        let before = recovery::settlements(view, rest, now);
        let settled = recovery::settlements(view, ids, now);
        assert(!rest.contains(last)) by {
            if rest.contains(last) {
                let k = choose|k: int| 0 <= k < rest.len() && rest[k] == last;
                assert(ids[k] == ids[ids.len() - 1]);
            }
        }
        assert forall|id: u128| #[trigger] ids.contains(id) <==> (rest.contains(id) || id
            == last) by {
            if ids.contains(id) {
                let k = choose|k: int| 0 <= k < ids.len() && ids[k] == id;
                if k < rest.len() {
                    assert(rest[k] == id);
                }
            }
            if rest.contains(id) {
                let k = choose|k: int| 0 <= k < rest.len() && rest[k] == id;
                assert(ids[k] == id);
            }
            assert(ids[ids.len() - 1] == last);
        }
        assert forall|k: int| 0 <= k < before.len() implies #[trigger] settled[k] == before[k] by {}
        assert forall|k: int, l: int| 0 <= k < l < settled.len() implies (
        #[trigger] settled[k]).job() != (#[trigger] settled[l]).job() by {
            assert(settled[k] == before[k]);
            assert(rest.contains(before[k].job()));
            if l < before.len() {
                assert(settled[l] == before[l]);
            }
        }
        assert forall|id: u128| #[trigger] ids.contains(id) && view.jobs[id].state
            == JobState::Running implies exists|k: int|
            0 <= k < settled.len() && (#[trigger] settled[k]).job() == id by {
            if id == last {
                assert(settled[before.len() as int].job() == id);
            } else {
                let k = choose|k: int| 0 <= k < before.len() && (#[trigger] before[k]).job() == id;
                assert(settled[k] == before[k]);
            }
        }
    }
}

/// Records are counted by their kind.
pub proof fn lemma_records_are_counted(records: Seq<RecordView>, record: RecordView)
    ensures
        ({
            let more = records.push(record);
            let none = Seq::<RecordView>::empty();
            &&& recovery::count(none, 1) == 0 && recovery::count(none, 2) == 0 && recovery::count(
                none,
                3,
            ) == 0 && recovery::count(none, 4) == 0 && recovery::count(none, 5) == 0
                && recovery::count(none, 6) == 0
            &&& recovery::count(more, 1) - recovery::count(records, 1) == one(record is JobSubmitted)
            &&& recovery::count(more, 2) - recovery::count(records, 2) == one(record is JobLeased)
            &&& recovery::count(more, 3) - recovery::count(records, 3) == one(
                record is JobRetryScheduled,
            )
            &&& recovery::count(more, 4) - recovery::count(records, 4) == one(record is JobCompleted)
            &&& recovery::count(more, 5) - recovery::count(records, 5) == one(record is JobDead)
            &&& recovery::count(more, 6) - recovery::count(records, 6) == one(record is JobCancelled)
        }),
{
    assert(records.push(record).drop_last() =~= records);
}

/// One where something holds, none otherwise.
pub open spec fn one(holds: bool) -> int {
    if holds {
        1
    } else {
        0
    }
}

/// The largest epoch is that of some lease, or none, and no lease has a larger one.
pub proof fn lemma_largest_epoch(records: Seq<RecordView>)
    ensures
        forall|i: int|
            0 <= i < records.len() && (#[trigger] records[i]) is JobLeased
                ==> records[i]->JobLeased_lease_id <= scanner::max_epoch(records),
        scanner::max_epoch(records) == 0 || exists|i: int|
            0 <= i < records.len() && (#[trigger] records[i]) is JobLeased
                && records[i]->JobLeased_lease_id == scanner::max_epoch(records),
    decreases records.len(),
{
    if records.len() > 0 {
        let rest = records.drop_last();
        lemma_largest_epoch(rest);
        assert(records[records.len() - 1] == records.last());
        assert forall|i: int| 0 <= i < records.len() && (#[trigger] records[i]) is JobLeased implies
            records[i]->JobLeased_lease_id <= scanner::max_epoch(records) by {
            if i < rest.len() {
                assert(rest[i] == records[i]);
            }
        }
        if scanner::max_epoch(records) == scanner::max_epoch(rest) && scanner::max_epoch(rest)
            != 0 {
            let i = choose|i: int|
                0 <= i < rest.len() && (#[trigger] rest[i]) is JobLeased
                    && rest[i]->JobLeased_lease_id == scanner::max_epoch(rest);
            assert(records[i] == rest[i]);
        }
    }
}

/// The figures of a recovered state: the next sequence number follows as many
/// records as there are, the next lease epoch is above that of every lease, and
/// nothing is skipped.
pub proof fn lemma_recovered_state_goes_on(state: RecoveredState, records: Seq<RecordView>)
    requires
        state.rebuilt_from(records),
    ensures
        state.next_sequence == records.len() + 1,
        forall|i: int|
            0 <= i < records.len() && (#[trigger] records[i]) is JobLeased
                ==> records[i]->JobLeased_lease_id < state.next_lease_epoch,
        state.next_lease_epoch == 1 || exists|i: int|
            0 <= i < records.len() && (#[trigger] records[i]) is JobLeased
                && records[i]->JobLeased_lease_id + 1 == state.next_lease_epoch,
        state.submitted == of_kind(records, |r: RecordView| r is JobSubmitted),
        state.retried == of_kind(records, |r: RecordView| r is JobRetryScheduled),
        state.completed == of_kind(records, |r: RecordView| r is JobCompleted),
        state.dead == of_kind(records, |r: RecordView| r is JobDead),
        state.cancelled == of_kind(records, |r: RecordView| r is JobCancelled),
{
    lemma_largest_epoch(records);
    lemma_counts_by_kind(records, 1, |r: RecordView| r is JobSubmitted);
    lemma_counts_by_kind(records, 3, |r: RecordView| r is JobRetryScheduled);
    lemma_counts_by_kind(records, 4, |r: RecordView| r is JobCompleted);
    lemma_counts_by_kind(records, 5, |r: RecordView| r is JobDead);
    lemma_counts_by_kind(records, 6, |r: RecordView| r is JobCancelled);
}

/// How many records are of a kind.
pub open spec fn of_kind(records: Seq<RecordView>, kind: spec_fn(RecordView) -> bool) -> nat {
    records.filter(kind).len()
}

proof fn lemma_counts_by_kind(
    records: Seq<RecordView>,
    tag: u8,
    kind: spec_fn(RecordView) -> bool,
)
    requires
        forall|r: RecordView| #[trigger] kind(r) <==> r.tag() == tag,
    ensures
        recovery::count(records, tag) == of_kind(records, kind),
    decreases records.len(),
{
    reveal(Seq::filter);
    if records.len() > 0 {
        lemma_counts_by_kind(records.drop_last(), tag, kind);
        assert(kind(records.last()) <==> records.last().tag() == tag);
    }
}

/// The capacity of a queue is the one that was configured for it last, and a queue
/// has none only where it is not configured.
pub proof fn lemma_last_capacity_counts(queues: Seq<QueueConfig>, name: Seq<char>)
    ensures
        recovery::capacity_of(queues, name) is None <==> (forall|i: int|
            0 <= i < queues.len() ==> (#[trigger] queues[i]).name@ != name),
        recovery::capacity_of(queues, name) is Some ==> exists|i: int|
            {
                &&& 0 <= i < queues.len()
                &&& (#[trigger] queues[i]).name@ == name
                &&& recovery::capacity_of(queues, name) == Some(queues[i].capacity)
                &&& forall|j: int| i < j < queues.len() ==> (#[trigger] queues[j]).name@ != name
            },
    decreases queues.len(),
{
    if queues.len() > 0 {
        let rest = queues.drop_last();
        let last = queues.len() - 1;
        lemma_last_capacity_counts(rest, name);
        if queues[last].name@ != name && recovery::capacity_of(rest, name) is Some {
            let i = choose|i: int|
                {
                    &&& 0 <= i < rest.len()
                    &&& (#[trigger] rest[i]).name@ == name
                    &&& recovery::capacity_of(rest, name) == Some(rest[i].capacity)
                    &&& forall|j: int| i < j < rest.len() ==> (#[trigger] rest[j]).name@ != name
                };
            assert(queues[i] == rest[i]);
            assert forall|j: int| i < j < queues.len() implies (#[trigger] queues[j]).name@
                != name by {
                if j < rest.len() {
                    assert(queues[j] == rest[j]);
                }
            }
        }
        if recovery::capacity_of(queues, name) is None {
            assert forall|i: int| 0 <= i < queues.len() implies (#[trigger] queues[i]).name@
                != name by {
                if i < rest.len() {
                    assert(rest[i] == queues[i]);
                }
            }
        }
        if forall|i: int| 0 <= i < queues.len() ==> (#[trigger] queues[i]).name@ != name {
            assert forall|i: int| 0 <= i < rest.len() implies (#[trigger] rest[i]).name@
                != name by {
                assert(rest[i] == queues[i]);
            }
        }
    }
}

/// The places that recovered work takes up in a queue: one for each job that is
/// queued there, and one for each job of the queue that waits for a retry.
pub proof fn lemma_recovered_work_takes_places(
    entries: Seq<(Seq<char>, u128)>,
    retries: Seq<(u128, i64)>,
    jobs: Map<u128, JobView>,
    queue: Seq<char>,
)
    ensures
        recovery::live(entries, retries, jobs, queue) == entries.filter(
            |entry: (Seq<char>, u128)| entry.0 == queue,
        ).len() + retries.filter(
            |retry: (u128, i64)| jobs.contains_key(retry.0) && jobs[retry.0].queue == queue,
        ).len(),
    decreases entries.len() + retries.len(),
{
    reveal(Seq::filter);
    if entries.len() > 0 {
        lemma_recovered_work_takes_places(entries.drop_last(), retries, jobs, queue);
    } else if retries.len() > 0 {
        lemma_recovered_work_takes_places(entries, retries.drop_last(), jobs, queue);
    }
}

/// The jobs that were queued in a queue are given back in their order.
pub proof fn lemma_queued_in_is_drawn(entries: Seq<(Seq<char>, u128)>, queue: Seq<char>)
    ensures
        recovery::ids_in(entries, queue) == entries.filter(
            |entry: (Seq<char>, u128)| entry.0 == queue,
        ).map_values(|entry: (Seq<char>, u128)| entry.1),
    decreases entries.len(),
{
    reveal(Seq::filter);
    let own = |entry: (Seq<char>, u128)| entry.0 == queue;
    let id = |entry: (Seq<char>, u128)| entry.1;
    if entries.len() > 0 {
        lemma_queued_in_is_drawn(entries.drop_last(), queue);
        let before = entries.drop_last().filter(own);
        if entries.last().0 == queue {
            assert(before.push(entries.last()).map_values(id) =~= before.map_values(id).push(
                entries.last().1,
            ));
        }
    }
    assert(recovery::ids_in(entries, queue) =~= entries.filter(own).map_values(id));
}

/// What recovery is refused for: only for a queue that has unfinished jobs and is
/// configured nowhere, or for one that has more of them than the capacity that is
/// configured for it; and never where neither is the case.
pub proof fn lemma_refusals_are_true(
    fault: WalFault,
    queues: Seq<QueueConfig>,
    entries: Seq<(Seq<char>, u128)>,
    retries: Seq<(u128, i64)>,
    jobs: Map<u128, JobView>,
)
    requires
        recovery::refuses(fault, queues, entries, retries, jobs),
    ensures
        fault is RecoveryQueueNotFound || fault is RecoveryCapacityExceeded,
        fault matches WalFault::RecoveryQueueNotFound(queue) ==> {
            &&& forall|i: int| 0 <= i < queues.len() ==> (#[trigger] queues[i]).name@ != queue
            &&& (exists|i: int| 0 <= i < entries.len() && (#[trigger] entries[i]).0 == queue) || (
            exists|i: int|
                0 <= i < retries.len() && jobs.contains_key((#[trigger] retries[i]).0)
                    && jobs[retries[i].0].queue == queue)
        },
        fault matches WalFault::RecoveryCapacityExceeded { queue, recovered, capacity } ==> {
            &&& exists|i: int|
                0 <= i < queues.len() && (#[trigger] queues[i]).name@ == queue
                    && queues[i].capacity == capacity
            &&& recovered == recovery::live(entries, retries, jobs, queue)
            &&& recovered > capacity
            &&& forall|i: int|
                0 <= i < entries.len() ==> recovery::capacity_of(
                    queues,
                    (#[trigger] entries[i]).0,
                ) is Some
        },
        !(recovery::all_configured(queues, entries, retries, jobs) && recovery::within_capacity(
            queues,
            entries,
            retries,
            jobs,
        )),
{
    match fault {
        WalFault::RecoveryQueueNotFound(queue) => {
            lemma_last_capacity_counts(queues, queue);
            lemma_someone_waits(entries, retries, jobs, queue);
        },
        WalFault::RecoveryCapacityExceeded { queue, recovered, capacity } => {
            lemma_last_capacity_counts(queues, queue);
        },
        _ => {},
    }
}

/// A queue with unfinished jobs has one that is queued there or one that waits for
/// a retry.
proof fn lemma_someone_waits(
    entries: Seq<(Seq<char>, u128)>,
    retries: Seq<(u128, i64)>,
    jobs: Map<u128, JobView>,
    queue: Seq<char>,
)
    requires
        recovery::live(entries, retries, jobs, queue) > 0,
    ensures
        (exists|i: int| 0 <= i < entries.len() && (#[trigger] entries[i]).0 == queue) || (exists|
            i: int,
        |
            0 <= i < retries.len() && jobs.contains_key((#[trigger] retries[i]).0)
                && jobs[retries[i].0].queue == queue),
    decreases entries.len() + retries.len(),
{
    if entries.len() > 0 {
        let rest = entries.drop_last();
        if entries.last().0 == queue {
            assert(entries[entries.len() - 1].0 == queue);
        } else {
            lemma_someone_waits(rest, retries, jobs, queue);
            if exists|i: int| 0 <= i < rest.len() && (#[trigger] rest[i]).0 == queue {
                let i = choose|i: int| 0 <= i < rest.len() && (#[trigger] rest[i]).0 == queue;
                assert(entries[i] == rest[i]);
            }
        }
    } else if retries.len() > 0 {
        let rest = retries.drop_last();
        let id = retries.last().0;
        if jobs.contains_key(id) && jobs[id].queue == queue {
            assert(retries[retries.len() - 1].0 == id);
        } else {
            lemma_someone_waits(entries, rest, jobs, queue);
            let i = choose|i: int|
                0 <= i < rest.len() && jobs.contains_key((#[trigger] rest[i]).0)
                    && jobs[rest[i].0].queue == queue;
            assert(retries[i] == rest[i]);
        }
    }
}

/// Recovery leaves alone what it cannot read, never changes a frame that is whole,
/// and cuts off nothing but an unfinished frame at the end.
pub proof fn lemma_recovery_keeps_the_log(contents: Seq<u8>, now: i64)
    ensures
        ({
            let written = recovery::recovered_log(contents, now);
            let found = scanner::scan_log(contents);
            &&& contents.len() == 0 ==> written == seq![
                0x52u8,
                0x44,
                0x51,
                0x55,
                0x45,
                0x55,
                0x45,
                0x00,
                0x01,
                0x00,
            ]
            &&& found is Err ==> written == contents
            &&& found is Ok && !found->Ok_0.truncated ==> written.len() >= contents.len()
                && written.take(contents.len() as int) == contents
            &&& found is Ok && found->Ok_0.truncated ==> {
                let whole = 10 + found->Ok_0.used as int;
                &&& whole < contents.len()
                &&& written.len() >= whole
                &&& written.take(whole) == contents.take(whole)
                &&& scanner::max_epoch(found->Ok_0.records) == u64::MAX ==> written.len() == whole
            }
            &&& found is Ok && contents.len() > 0 && !found->Ok_0.truncated && scanner::max_epoch(
                found->Ok_0.records,
            ) == u64::MAX ==> written == contents
        }),
{
    let written = recovery::recovered_log(contents, now);
    let found = scanner::scan_log(contents);
    layout::lemma_header_is_fixed(Seq::new(10, |i: int| 0u8));
    if found is Ok && !found->Ok_0.truncated {
        assert(written.take(contents.len() as int) =~= contents);
    }
    if found is Ok && found->Ok_0.truncated {
        let whole = 10 + found->Ok_0.used as int;
        scanner::lemma_repair_leaves_clean_log(contents);
        assert(written.take(whole) =~= contents.take(whole));
    }
}

/// A log can be continued while a sequence number is left behind the records that
/// it holds once it is settled, and a lease epoch behind its leases.
pub proof fn lemma_logs_that_cannot_go_on(records: Seq<RecordView>, now: i64)
    ensures
        ({
            let fault = recovery::rebuild_fault(records, now);
            let lost = recovery::reconciliation(recovery::replay(records), now).len();
            &&& fault is None <==> records.len() + lost < u64::MAX && scanner::max_epoch(records)
                < u64::MAX
            &&& fault is Some ==> fault == Some(WalFault::SequenceExhausted) || fault == Some(
                WalFault::LeaseEpochExhausted,
            )
            &&& fault == Some(WalFault::LeaseEpochExhausted) <==> records.len() < u64::MAX
                && scanner::max_epoch(records) == u64::MAX
        }),
{
}

/// A queue starts from the records of its log, in their order, with one more for each
/// job whose worker was lost; and from none where the log is empty. It does not start
/// where the log cannot be read, no lease could follow, or the jobs do not fit.
pub proof fn lemma_starts_from_the_log(
    contents: Seq<u8>,
    config: RuntimeConfig,
    fault: WalFault,
    wall: i64,
)
    ensures
        ({
            let found = scanner::scan_log(contents);
            let records = state::starting_records(contents, wall);
            &&& contents.len() == 0 ==> records.len() == 0
            &&& contents.len() > 0 && found is Ok ==> {
                &&& records.len() >= found->Ok_0.records.len()
                &&& records.take(found->Ok_0.records.len() as int) == found->Ok_0.records
                &&& forall|k: int|
                    found->Ok_0.records.len() <= k < records.len() ==> (
                    #[trigger] records[k]) is JobRetryScheduled || records[k] is JobDead
            }
            &&& state::startup_fault(fault, contents, config, wall) ==> {
                &&& contents.len() > 0
                &&& found is Err ==> fault == found->Err_0
                &&& found is Ok ==> fault == WalFault::LeaseEpochExhausted
                    || fault is RecoveryQueueNotFound || fault is RecoveryCapacityExceeded
                &&& found is Ok && fault == WalFault::LeaseEpochExhausted <==> found is Ok
                    && scanner::max_epoch(found->Ok_0.records) == u64::MAX
            }
        }),
{
    let found = scanner::scan_log(contents);
    if contents.len() > 0 && found is Ok {
        let before = found->Ok_0.records;
        let records = state::starting_records(contents, wall);
        let settled = recovery::reconciliation(recovery::replay(before), wall);
        lemma_lost_jobs_are_settled(before, wall);
        assert(records.take(before.len() as int) =~= before);
        assert forall|k: int| before.len() <= k < records.len() implies (
        #[trigger] records[k]) is JobRetryScheduled || records[k] is JobDead by {
            assert(records[k] == settled[k - before.len()]);
            let job = recovery::replay(before).jobs[settled[k - before.len()].job()];
            assert(job.attempts < job.max_attempts || job.attempts >= job.max_attempts);
        }
        let view = recovery::replay(records);
        if state::startup_fault(fault, contents, config, wall) && scanner::max_epoch(before)
            < u64::MAX {
            lemma_refusals_are_true(
                fault,
                config.queues@,
                recovery::queued(view.order, view.jobs),
                recovery::waiting(view, view.ids),
                view.jobs,
            );
        }
    }
}

} // verus!
