//! What every step of the coordinator keeps.

use crate::coordinator::model;
use crate::coordinator::model::{ActiveLease, Clock, CoordinatorView, QueueView, RetryEntry};
use crate::store;
use crate::types::JobState;
use crate::wal::record::RecordView;
use vstd::prelude::*;

verus! {

/// A search for a ready job finds the nearest queue that has one.
pub proof fn lemma_next_queue(queues: Seq<QueueView>, cursor: nat, tried: nat)
    requires
        cursor < queues.len(),
    ensures
        match model::next_queue(queues, cursor, tried) {
            Some(i) => {
                &&& 0 <= i < queues.len()
                &&& queues[i].ready.len() > 0
                &&& exists|k: int|
                    {
                        &&& tried <= k < queues.len()
                        &&& i == #[trigger] model::wrap(cursor + k, queues.len())
                        &&& forall|l: int|
                            tried <= l < k ==> (#[trigger] queues[model::wrap(
                                cursor + l,
                                queues.len(),
                            )]).ready.len() == 0
                    }
            },
            None => forall|l: int|
                tried <= l < queues.len() ==> (#[trigger] queues[model::wrap(
                    cursor + l,
                    queues.len(),
                )]).ready.len() == 0,
        },
    decreases queues.len() - tried,
{
    if tried < queues.len() {
        let i = model::wrap((cursor + tried) as int, queues.len());
        if queues[i].ready.len() > 0 {
            assert(i == model::wrap(cursor + tried as int, queues.len()));
        } else {
            lemma_next_queue(queues, cursor, tried + 1);
            match model::next_queue(queues, cursor, tried + 1) {
                Some(found) => {
                    let k = choose|k: int|
                        {
                            &&& tried + 1 <= k < queues.len()
                            &&& found == #[trigger] model::wrap(cursor + k, queues.len())
                            &&& forall|l: int|
                                tried + 1 <= l < k ==> (#[trigger] queues[model::wrap(
                                    cursor + l,
                                    queues.len(),
                                )]).ready.len() == 0
                        };
                    assert(found == model::wrap(cursor + k, queues.len()));
                },
                None => {},
            }
        }
    }
}

/// The position of a lease among leases of different jobs.
proof fn lemma_lease_index(leases: Seq<ActiveLease>, id: u128, at: int)
    requires
        0 <= at < leases.len(),
        leases[at].job == id,
        forall|k: int, l: int|
            0 <= k < l < leases.len() ==> (#[trigger] leases[k]).job != (#[trigger] leases[l]).job,
    ensures
        model::leased(leases, id),
        model::lease_index(leases, id) == at,
{
    let k = model::lease_index(leases, id);
    assert(0 <= k < leases.len() && leases[k].job == id);
}

/// Where a lease stands is where it was found.
pub proof fn lemma_lease_found(view: CoordinatorView, id: u128, at: int)
    requires
        view.leases_are_running(),
        0 <= at < view.leases.len(),
        view.leases[at].job == id,
    ensures
        model::leased(view.leases, id),
        model::lease_index(view.leases, id) == at,
{
    lemma_lease_index(view.leases, id, at);
}

/// Submitting a job keeps the coordinator well formed.
pub proof fn lemma_submission_keeps_order(view: CoordinatorView, record: RecordView, clock: Clock)
    requires
        view.well_formed(),
        view.admits(record),
        record is JobSubmitted,
    ensures
        view.after(record, clock).well_formed(),
{
    let after = view.after(record, clock);
    let id = record.job();
    let queue = record->JobSubmitted_queue;
    assert forall|i: int, k: int|
        0 <= i < after.queues.len() && 0 <= k < after.queues[i].ready.len() implies {
        let other = #[trigger] after.queues[i].ready[k];
        &&& after.jobs.contains_key(other)
        &&& after.jobs[other].state == JobState::Queued
        &&& after.jobs[other].queue == after.queues[i].name
    } by {
        if k < view.queues[i].ready.len() {
            assert(after.queues[i].ready[k] == view.queues[i].ready[k]);
        }
    }
    assert forall|i: int| 0 <= i < after.queues.len() implies (
    #[trigger] after.queues[i]).ready.no_duplicates() by {
        let ready = view.queues[i].ready;
        assert(!ready.contains(id)) by {
            if ready.contains(id) {
                let k = choose|k: int| 0 <= k < ready.len() && ready[k] == id;
                assert(view.queues[i].ready[k] == id);
            }
        }
        assert(view.queues[i].ready.no_duplicates());
    }
    assert forall|other: u128| #[trigger] after.jobs.contains_key(other) && after.jobs[other].state
        == JobState::Queued implies after.is_ready(other) by {
        if other == id {
            let i = model::queue_index(view.queues, queue);
            assert(after.queues[i].ready.last() == id);
            assert(after.queues[i].ready.contains(id));
            assert(after.queues[i].name == after.jobs[id].queue);
        } else {
            assert(view.is_ready(other));
            assert forall|i: int|
                0 <= i < view.queues.len() && view.queues[i].ready.contains(other) implies (
            #[trigger] after.queues[i]).ready.contains(other) by {
                let ready = view.queues[i].ready;
                let k = choose|k: int| 0 <= k < ready.len() && ready[k] == other;
                assert(after.queues[i].ready[k] == other);
            }
            lemma_still_ready(view, after, other);
        }
    }
    assert forall|other: u128| #[trigger] after.jobs.contains_key(other)
        && !after.jobs[other].state.terminal() implies model::has_queue(
        after.queues,
        after.jobs[other].queue,
    ) by {
        if other != id {
            assert(view.jobs.contains_key(other));
        }
        let name = after.jobs[other].queue;
        let i = model::queue_index(view.queues, name);
        assert(after.queues[i].name == name);
    }
    lemma_timers_kept(view, after, id);
}

/// A job that was ready is ready still where no ready list has lost it.
proof fn lemma_still_ready(view: CoordinatorView, after: CoordinatorView, id: u128)
    requires
        view.is_ready(id),
        after.jobs[id].queue == view.jobs[id].queue,
        after.queues.len() == view.queues.len(),
        forall|i: int|
            0 <= i < view.queues.len() ==> (#[trigger] after.queues[i]).name
                == view.queues[i].name,
        forall|i: int|
            0 <= i < view.queues.len() && view.queues[i].ready.contains(id) ==> (
            #[trigger] after.queues[i]).ready.contains(id),
    ensures
        after.is_ready(id),
{
    let i = choose|i: int|
        0 <= i < view.queues.len() && (#[trigger] view.queues[i]).name == view.jobs[id].queue
            && view.queues[i].ready.contains(id);
    assert(after.queues[i].name == after.jobs[id].queue);
}

/// Leases and retries that stay as they are remain in order when only a job
/// that has neither changes.
proof fn lemma_timers_kept(view: CoordinatorView, after: CoordinatorView, id: u128)
    requires
        view.leases_are_running(),
        view.running_is_leased(),
        view.retries_in_order(),
        view.waiting_is_scheduled(),
        after.leases == view.leases,
        after.retries == view.retries,
        after.abandoned == view.abandoned,
        after.next_lease_epoch >= view.next_lease_epoch,
        forall|other: u128|
            other != id ==> (#[trigger] after.jobs.contains_key(other) <==> view.jobs.contains_key(
                other,
            )) && after.jobs[other] == view.jobs[other],
        after.jobs.contains_key(id),
        after.jobs[id].state != JobState::Running,
        after.jobs[id].state != JobState::RetryWaiting,
        !model::leased(view.leases, id),
        model::scheduled(view.retries, id) ==> after.jobs[id].state.terminal(),
    ensures
        after.leases_are_running(),
        after.running_is_leased(),
        after.retries_in_order(),
        after.waiting_is_scheduled(),
{
    assert forall|k: int| 0 <= k < after.leases.len() implies {
        let lease = #[trigger] after.leases[k];
        &&& after.jobs.contains_key(lease.job)
        &&& after.jobs[lease.job].state == JobState::Running
        &&& lease.lease_id < after.next_lease_epoch
    } by {
        assert(view.leases[k].job != id);
        assert(view.jobs.contains_key(view.leases[k].job));
        assert(after.jobs.contains_key(view.leases[k].job));
    }
    assert forall|k: int| 0 <= k < after.retries.len() implies {
        let other = (#[trigger] after.retries[k]).job;
        &&& after.jobs.contains_key(other)
        &&& after.jobs[other].state != JobState::Queued
        &&& after.jobs[other].state != JobState::Running
    } by {
        let other = view.retries[k].job;
        assert(view.jobs.contains_key(other));
        if other == id {
            assert(model::scheduled(view.retries, id));
        } else {
            assert(after.jobs.contains_key(other));
        }
    }
    assert forall|other: u128| #[trigger] after.jobs.contains_key(other) && after.jobs[other].state
        == JobState::RetryWaiting implies model::scheduled(after.retries, other) by {
        assert(view.jobs.contains_key(other));
    }
    if !after.abandoned {
        assert forall|other: u128| #[trigger] after.jobs.contains_key(other)
            && after.jobs[other].state == JobState::Running implies model::leased(
            after.leases,
            other,
        ) by {
            assert(view.jobs.contains_key(other));
        }
    }
}

/// Jobs keep their queues where names of queues stay.
proof fn lemma_queues_kept(view: CoordinatorView, after: CoordinatorView)
    requires
        view.live_have_queues(),
        after.queues.len() == view.queues.len(),
        forall|i: int|
            0 <= i < view.queues.len() ==> (#[trigger] after.queues[i]).name
                == view.queues[i].name,
        forall|id: u128| #[trigger]
            after.jobs.contains_key(id) ==> view.jobs.contains_key(id) && after.jobs[id].queue
                == view.jobs[id].queue && (view.jobs[id].state.terminal()
                ==> after.jobs[id].state.terminal()),
    ensures
        after.live_have_queues(),
{
    assert forall|id: u128| #[trigger] after.jobs.contains_key(id)
        && !after.jobs[id].state.terminal() implies model::has_queue(
        after.queues,
        after.jobs[id].queue,
    ) by {
        assert(view.jobs.contains_key(id));
        let i = model::queue_index(view.queues, view.jobs[id].queue);
        assert(after.queues[i].name == after.jobs[id].queue);
    }
}

/// Ready lists that stay as they are remain right when the one job that changes
/// is in none of them and does not come to be queued.
proof fn lemma_ready_kept(view: CoordinatorView, after: CoordinatorView, id: u128)
    requires
        view.ready_is_queued(),
        view.queued_is_ready(),
        view.jobs.contains_key(id),
        view.jobs[id].state != JobState::Queued,
        after.jobs == view.jobs.insert(id, after.jobs[id]),
        after.jobs[id].state != JobState::Queued,
        after.queues.len() == view.queues.len(),
        forall|i: int|
            0 <= i < view.queues.len() ==> (#[trigger] after.queues[i]).name == view.queues[i].name
                && after.queues[i].ready == view.queues[i].ready,
    ensures
        after.ready_is_queued(),
        after.queued_is_ready(),
{
    assert forall|i: int, k: int|
        0 <= i < after.queues.len() && 0 <= k < after.queues[i].ready.len() implies {
        let other = #[trigger] after.queues[i].ready[k];
        &&& after.jobs.contains_key(other)
        &&& after.jobs[other].state == JobState::Queued
        &&& after.jobs[other].queue == after.queues[i].name
    } by {
        assert(after.queues[i].ready[k] == view.queues[i].ready[k]);
    }
    assert forall|i: int| 0 <= i < after.queues.len() implies (
    #[trigger] after.queues[i]).ready.no_duplicates() by {
        assert(view.queues[i].ready.no_duplicates());
    }
    assert forall|other: u128| #[trigger] after.jobs.contains_key(other) && after.jobs[other].state
        == JobState::Queued implies after.is_ready(other) by {
        assert(view.jobs.contains_key(other));
        assert(view.is_ready(other));
        lemma_still_ready(view, after, other);
    }
}

/// Taking away the lease of a job leaves the others right, when the job stops
/// running.
proof fn lemma_lease_returned(view: CoordinatorView, after: CoordinatorView, id: u128)
    requires
        view.leases_are_running(),
        view.running_is_leased(),
        view.jobs.contains_key(id),
        after.jobs == view.jobs.insert(id, after.jobs[id]),
        after.jobs[id].state != JobState::Running,
        after.leases == view.leases_without(id),
        after.abandoned == view.abandoned,
        after.next_lease_epoch == view.next_lease_epoch,
    ensures
        after.leases_are_running(),
        after.running_is_leased(),
{
    if model::leased(view.leases, id) {
        let at = model::lease_index(view.leases, id);
        assert(0 <= at < view.leases.len() && view.leases[at].job == id);
        assert forall|k: int| 0 <= k < after.leases.len() implies {
            let lease = #[trigger] after.leases[k];
            &&& after.jobs.contains_key(lease.job)
            &&& after.jobs[lease.job].state == JobState::Running
            &&& lease.lease_id < after.next_lease_epoch
        } by {
            let l = if k < at {
                k
            } else {
                k + 1
            };
            assert(after.leases[k] == view.leases[l]);
            assert(view.leases[l].job != id);
        }
        assert forall|k: int, l: int| 0 <= k < l < after.leases.len() implies (
        #[trigger] after.leases[k]).job != (#[trigger] after.leases[l]).job
            && after.leases[k].lease_id < after.leases[l].lease_id by {
            let k1 = if k < at {
                k
            } else {
                k + 1
            };
            let l1 = if l < at {
                l
            } else {
                l + 1
            };
            assert(after.leases[k] == view.leases[k1]);
            assert(after.leases[l] == view.leases[l1]);
        }
        if !after.abandoned {
            assert forall|other: u128| #[trigger] after.jobs.contains_key(other)
                && after.jobs[other].state == JobState::Running implies model::leased(
                after.leases,
                other,
            ) by {
                assert(view.jobs.contains_key(other));
                let k = model::lease_index(view.leases, other);
                assert(0 <= k < view.leases.len() && view.leases[k].job == other);
                assert(k != at);
                let k1 = if k < at {
                    k
                } else {
                    k - 1
                };
                assert(after.leases[k1] == view.leases[k]);
            }
        }
    } else {
        assert forall|k: int| 0 <= k < after.leases.len() implies {
            let lease = #[trigger] after.leases[k];
            &&& after.jobs.contains_key(lease.job)
            &&& after.jobs[lease.job].state == JobState::Running
        } by {
            assert(view.leases[k].job != id);
        }
        if !after.abandoned {
            assert forall|other: u128| #[trigger] after.jobs.contains_key(other)
                && after.jobs[other].state == JobState::Running implies model::leased(
                after.leases,
                other,
            ) by {
                assert(view.jobs.contains_key(other));
            }
        }
    }
}

/// Retries to come stay right when a job ends.
proof fn lemma_retries_kept(view: CoordinatorView, after: CoordinatorView, id: u128)
    requires
        view.retries_in_order(),
        view.waiting_is_scheduled(),
        view.jobs.contains_key(id),
        after.jobs == view.jobs.insert(id, after.jobs[id]),
        after.retries == view.retries,
        after.jobs[id].state != JobState::RetryWaiting,
        model::scheduled(view.retries, id) ==> after.jobs[id].state.terminal(),
    ensures
        after.retries_in_order(),
        after.waiting_is_scheduled(),
{
    assert forall|k: int| 0 <= k < after.retries.len() implies {
        let other = (#[trigger] after.retries[k]).job;
        &&& after.jobs.contains_key(other)
        &&& after.jobs[other].state != JobState::Queued
        &&& after.jobs[other].state != JobState::Running
    } by {
        let other = view.retries[k].job;
        assert(view.jobs.contains_key(other));
        if other == id {
            assert(model::scheduled(view.retries, id));
        }
    }
    assert forall|other: u128| #[trigger] after.jobs.contains_key(other) && after.jobs[other].state
        == JobState::RetryWaiting implies model::scheduled(after.retries, other) by {
        assert(view.jobs.contains_key(other));
    }
}

/// A running job that has a lease is under no retry.
proof fn lemma_leased_not_scheduled(view: CoordinatorView, id: u128)
    requires
        view.leases_are_running(),
        view.retries_in_order(),
        model::leased(view.leases, id),
    ensures
        view.jobs.contains_key(id),
        view.jobs[id].state == JobState::Running,
        !model::scheduled(view.retries, id),
{
    let at = model::lease_index(view.leases, id);
    assert(view.leases[at].job == id);
    if model::scheduled(view.retries, id) {
        let k = choose|k: int| 0 <= k < view.retries.len() && (#[trigger] view.retries[k]).job == id;
        assert(view.retries[k].job == id);
    }
}

/// The end of a job under its lease keeps the coordinator well formed.
pub proof fn lemma_end_keeps_order(view: CoordinatorView, record: RecordView, clock: Clock)
    requires
        view.well_formed(),
        view.admits(record),
        record is JobCompleted || record is JobDead,
    ensures
        view.after(record, clock).well_formed(),
        store::apply_fault(view.jobs, record) is None,
{
    let after = view.after(record, clock);
    let id = record.job();
    lemma_leased_not_scheduled(view, id);
    lemma_ready_kept(view, after, id);
    lemma_queues_kept(view, after);
    lemma_lease_returned(view, after, id);
    lemma_retries_kept(view, after, id);
}

/// Where a retry belongs, and that it keeps the order.
pub proof fn lemma_retry_position(retries: Seq<RetryEntry>, at: u128)
    requires
        forall|k: int, l: int|
            0 <= k < l < retries.len() ==> (#[trigger] retries[k]).available_at <= (
            #[trigger] retries[l]).available_at,
    ensures
        ({
            let p = model::retry_position(retries, at);
            &&& 0 <= p <= retries.len()
            &&& forall|k: int| 0 <= k < p ==> (#[trigger] retries[k]).available_at <= at
            &&& forall|k: int|
                p <= k < retries.len() ==> (#[trigger] retries[k]).available_at > at
        }),
    decreases retries.len(),
{
    if retries.len() > 0 {
        let rest = retries.drop_last();
        assert forall|k: int, l: int| 0 <= k < l < rest.len() implies (
        #[trigger] rest[k]).available_at <= (#[trigger] rest[l]).available_at by {
            assert(rest[k] == retries[k] && rest[l] == retries[l]);
        }
        lemma_retry_position(rest, at);
        let p = model::retry_position(retries, at);
        let last = retries.len() - 1;
        if retries.last().available_at <= at {
            assert forall|k: int| 0 <= k < p implies (#[trigger] retries[k]).available_at <= at by {
                if k < last {
                    assert(retries[k].available_at <= retries[last].available_at);
                }
            }
        } else {
            assert forall|k: int| 0 <= k < p implies (#[trigger] retries[k]).available_at <= at by {
                assert(rest[k] == retries[k]);
            }
            assert forall|k: int| p <= k < retries.len() implies (
            #[trigger] retries[k]).available_at > at by {
                if k < last {
                    assert(rest[k] == retries[k]);
                }
            }
        }
    }
}

/// Scheduling a retry keeps the coordinator well formed.
pub proof fn lemma_failure_keeps_order(view: CoordinatorView, record: RecordView, clock: Clock)
    requires
        view.well_formed(),
        view.admits(record),
        record is JobRetryScheduled,
    ensures
        view.after(record, clock).well_formed(),
        store::apply_fault(view.jobs, record) is None,
{
    let after = view.after(record, clock);
    let id = record.job();
    lemma_leased_not_scheduled(view, id);
    lemma_ready_kept(view, after, id);
    lemma_queues_kept(view, after);
    lemma_lease_returned(view, after, id);
    let at = model::monotonic(clock, record->JobRetryScheduled_available_at);
    let entry = RetryEntry { available_at: at, job: id };
    let p = model::retry_position(view.retries, at);
    lemma_retry_position(view.retries, at);
    assert(after.retries == view.retries.insert(p, entry));
    assert forall|k: int| 0 <= k < after.retries.len() implies #[trigger] after.retries[k] == (if k
        < p {
        view.retries[k]
    } else if k == p {
        entry
    } else {
        view.retries[k - 1]
    }) by {}
    assert forall|k: int, l: int| 0 <= k < l < after.retries.len() implies (
    #[trigger] after.retries[k]).available_at <= (#[trigger] after.retries[l]).available_at
        && after.retries[k].job != after.retries[l].job by {
        let k1 = if k < p {
            k
        } else {
            k - 1
        };
        let l1 = if l < p {
            l
        } else {
            l - 1
        };
        if k != p && l != p {
            assert(after.retries[k] == view.retries[k1]);
            assert(after.retries[l] == view.retries[l1]);
        } else if k == p {
            assert(after.retries[l] == view.retries[l1]);
            assert(view.retries[l1].job != id);
        } else {
            assert(after.retries[k] == view.retries[k1]);
            assert(view.retries[k1].job != id);
        }
    }
    assert forall|k: int| 0 <= k < after.retries.len() implies {
        let other = (#[trigger] after.retries[k]).job;
        &&& after.jobs.contains_key(other)
        &&& after.jobs[other].state != JobState::Queued
        &&& after.jobs[other].state != JobState::Running
    } by {
        if k < p {
            assert(view.retries[k].job != id);
        } else if k > p {
            assert(view.retries[k - 1].job != id);
        }
    }
    assert forall|other: u128| #[trigger] after.jobs.contains_key(other) && after.jobs[other].state
        == JobState::RetryWaiting implies model::scheduled(after.retries, other) by {
        if other == id {
            assert(after.retries[p].job == id);
        } else {
            assert(view.jobs.contains_key(other));
            let k = choose|k: int|
                0 <= k < view.retries.len() && (#[trigger] view.retries[k]).job == other;
            let k1 = if k < p {
                k
            } else {
                k + 1
            };
            assert(after.retries[k1] == view.retries[k]);
        }
    }
}

/// Leasing a job keeps the coordinator well formed.
pub proof fn lemma_lease_keeps_order(view: CoordinatorView, record: RecordView, clock: Clock)
    requires
        view.well_formed(),
        view.admits(record),
        record is JobLeased,
    ensures
        view.after(record, clock).well_formed(),
        store::apply_fault(view.jobs, record) is None,
        ({
            let i = model::next_queue(view.queues, view.cursor, 0)->Some_0;
            &&& 0 <= i < view.queues.len()
            &&& view.queues[i].ready.len() > 0
            &&& view.jobs.contains_key(record.job())
            &&& view.jobs[record.job()].queue == view.queues[i].name
        }),
{
    let after = view.after(record, clock);
    let id = record.job();
    if view.queues.len() > 0 {
        lemma_next_queue(view.queues, view.cursor, 0);
    }
    let i = model::next_queue(view.queues, view.cursor, 0)->Some_0;
    assert(view.queues[i].ready[0] == id);
    assert(!model::leased(view.leases, id)) by {
        if model::leased(view.leases, id) {
            let k = model::lease_index(view.leases, id);
            assert(view.leases[k].job == id);
        }
    }
    assert(!model::scheduled(view.retries, id)) by {
        if model::scheduled(view.retries, id) {
            let k = choose|k: int|
                0 <= k < view.retries.len() && (#[trigger] view.retries[k]).job == id;
            assert(view.retries[k].job == id);
        }
    }
    assert forall|j: int, k: int|
        0 <= j < after.queues.len() && 0 <= k < after.queues[j].ready.len() implies {
        let other = #[trigger] after.queues[j].ready[k];
        &&& after.jobs.contains_key(other)
        &&& after.jobs[other].state == JobState::Queued
        &&& after.jobs[other].queue == after.queues[j].name
    } by {
        let other = after.queues[j].ready[k];
        if j == i {
            assert(other == view.queues[i].ready[k + 1]);
            assert(view.queues[i].ready.no_duplicates());
            assert(other != id);
        } else {
            assert(other == view.queues[j].ready[k]);
            if other == id {
                assert(view.queues[j].name == view.queues[i].name);
            }
        }
    }
    assert forall|j: int| 0 <= j < after.queues.len() implies (
    #[trigger] after.queues[j]).ready.no_duplicates() by {
        assert(view.queues[j].ready.no_duplicates());
    }
    assert forall|other: u128| #[trigger] after.jobs.contains_key(other) && after.jobs[other].state
        == JobState::Queued implies after.is_ready(other) by {
        assert(other != id);
        assert(view.jobs.contains_key(other));
        assert(view.is_ready(other));
        assert forall|j: int|
            0 <= j < view.queues.len() && view.queues[j].ready.contains(other) implies (
        #[trigger] after.queues[j]).ready.contains(other) by {
            let ready = view.queues[j].ready;
            let k = choose|k: int| 0 <= k < ready.len() && ready[k] == other;
            if j == i {
                assert(k != 0);
                assert(after.queues[j].ready[k - 1] == other);
            }
        }
        lemma_still_ready(view, after, other);
    }
    lemma_queues_kept(view, after);
    assert forall|k: int| 0 <= k < after.leases.len() implies {
        let lease = #[trigger] after.leases[k];
        &&& after.jobs.contains_key(lease.job)
        &&& after.jobs[lease.job].state == JobState::Running
        &&& lease.lease_id < after.next_lease_epoch
    } by {
        if k < view.leases.len() {
            assert(view.leases[k].job != id);
            assert(after.leases[k] == view.leases[k]);
        }
    }
    assert forall|k: int, l: int| 0 <= k < l < after.leases.len() implies (
    #[trigger] after.leases[k]).job != (#[trigger] after.leases[l]).job && after.leases[k].lease_id
        < after.leases[l].lease_id by {
        assert(after.leases[k] == view.leases[k]);
        assert(view.leases[k].job != id);
        if l < view.leases.len() {
            assert(after.leases[l] == view.leases[l]);
        }
    }
    if !after.abandoned {
        assert forall|other: u128| #[trigger] after.jobs.contains_key(other)
            && after.jobs[other].state == JobState::Running implies model::leased(
            after.leases,
            other,
        ) by {
            if other == id {
                assert(after.leases[view.leases.len() as int].job == id);
            } else {
                assert(view.jobs.contains_key(other));
                let k = model::lease_index(view.leases, other);
                assert(after.leases[k] == view.leases[k]);
            }
        }
    }
    lemma_retries_kept(view, after, id);
}

/// Cancelling a job keeps the coordinator well formed.
pub proof fn lemma_cancellation_keeps_order(
    view: CoordinatorView,
    record: RecordView,
    clock: Clock,
)
    requires
        view.well_formed(),
        view.admits(record),
        record is JobCancelled,
    ensures
        view.after(record, clock).well_formed(),
        store::apply_fault(view.jobs, record) is None,
{
    let after = view.after(record, clock);
    let id = record.job();
    let name = view.jobs[id].queue;
    assert forall|i: int| 0 <= i < view.queues.len() implies (#[trigger] after.queues[i]).name
        == view.queues[i].name && (after.queues[i].ready == if view.queues[i].ready.contains(id) {
        view.queues[i].ready.remove(view.queues[i].ready.index_of(id))
    } else {
        view.queues[i].ready
    }) by {
        if view.queues[i].name != name && view.queues[i].ready.contains(id) {
            let ready = view.queues[i].ready;
            let k = choose|k: int| 0 <= k < ready.len() && ready[k] == id;
            assert(view.queues[i].ready[k] == id);
        }
    }
    assert forall|i: int, k: int|
        0 <= i < after.queues.len() && 0 <= k < after.queues[i].ready.len() implies {
        let other = #[trigger] after.queues[i].ready[k];
        &&& after.jobs.contains_key(other)
        &&& after.jobs[other].state == JobState::Queued
        &&& after.jobs[other].queue == after.queues[i].name
    } by {
        let ready = view.queues[i].ready;
        let other = after.queues[i].ready[k];
        assert(view.queues[i].ready.no_duplicates());
        if ready.contains(id) {
            let at = ready.index_of(id);
            let l = if k < at {
                k
            } else {
                k + 1
            };
            assert(other == view.queues[i].ready[l]);
            assert(other != id);
        } else {
            assert(other == view.queues[i].ready[k]);
            assert(ready.contains(other));
        }
    }
    assert forall|i: int| 0 <= i < after.queues.len() implies (
    #[trigger] after.queues[i]).ready.no_duplicates() by {
        assert(view.queues[i].ready.no_duplicates());
    }
    assert forall|other: u128| #[trigger] after.jobs.contains_key(other) && after.jobs[other].state
        == JobState::Queued implies after.is_ready(other) by {
        assert(other != id);
        assert(view.jobs.contains_key(other));
        assert(view.is_ready(other));
        assert forall|i: int|
            0 <= i < view.queues.len() && view.queues[i].ready.contains(other) implies (
        #[trigger] after.queues[i]).ready.contains(other) by {
            let ready = view.queues[i].ready;
            let k = choose|k: int| 0 <= k < ready.len() && ready[k] == other;
            if ready.contains(id) {
                let at = ready.index_of(id);
                assert(ready[at] == id);
                let l = if k < at {
                    k
                } else {
                    k - 1
                };
                assert(after.queues[i].ready[l] == other);
            }
        }
        lemma_still_ready(view, after, other);
    }
    lemma_queues_kept(view, after);
    lemma_lease_returned(view, after, id);
    lemma_retries_kept(view, after, id);
}

/// Taking a retry that is due keeps the coordinator well formed.
pub proof fn lemma_retry_keeps_order(view: CoordinatorView)
    requires
        view.well_formed(),
        view.retries.len() > 0,
    ensures
        view.after_retry().well_formed(),
        view.jobs.contains_key(view.retries[0].job),
        view.jobs[view.retries[0].job].state == JobState::RetryWaiting ==> model::has_queue(
            view.queues,
            view.jobs[view.retries[0].job].queue,
        ),
{
    let after = view.after_retry();
    let id = view.retries[0].job;
    assert forall|k: int| 0 <= k < after.retries.len() implies #[trigger] after.retries[k]
        == view.retries[k + 1] by {}
    assert forall|k: int| 0 <= k < after.retries.len() implies {
        let other = (#[trigger] after.retries[k]).job;
        &&& after.jobs.contains_key(other)
        &&& after.jobs[other].state != JobState::Queued
        &&& after.jobs[other].state != JobState::Running
        &&& other != id
    } by {
        let other = view.retries[k + 1].job;
        assert(view.retries[0].job != other);
        assert(view.jobs.contains_key(other));
    }
    assert forall|k: int, l: int| 0 <= k < l < after.retries.len() implies (
    #[trigger] after.retries[k]).available_at <= (#[trigger] after.retries[l]).available_at
        && after.retries[k].job != after.retries[l].job by {
        assert(view.retries[k + 1].available_at <= view.retries[l + 1].available_at);
    }
    assert forall|other: u128| #[trigger] after.jobs.contains_key(other) && after.jobs[other].state
        == JobState::RetryWaiting implies model::scheduled(after.retries, other) by {
        assert(view.jobs.contains_key(other));
        let k = choose|k: int|
            0 <= k < view.retries.len() && (#[trigger] view.retries[k]).job == other;
        assert(other != id);
        assert(k > 0);
        assert(after.retries[k - 1] == view.retries[k]);
    }
    if view.jobs[id].state == JobState::RetryWaiting {
        let name = view.jobs[id].queue;
        assert(model::has_queue(view.queues, name));
        assert forall|i: int, k: int|
            0 <= i < after.queues.len() && 0 <= k < after.queues[i].ready.len() implies {
            let other = #[trigger] after.queues[i].ready[k];
            &&& after.jobs.contains_key(other)
            &&& after.jobs[other].state == JobState::Queued
            &&& after.jobs[other].queue == after.queues[i].name
        } by {
            if k < view.queues[i].ready.len() {
                assert(after.queues[i].ready[k] == view.queues[i].ready[k]);
            }
        }
        assert forall|i: int| 0 <= i < after.queues.len() implies (
        #[trigger] after.queues[i]).ready.no_duplicates() by {
            let ready = view.queues[i].ready;
            assert(!ready.contains(id)) by {
                if ready.contains(id) {
                    let k = choose|k: int| 0 <= k < ready.len() && ready[k] == id;
                    assert(view.queues[i].ready[k] == id);
                }
            }
            assert(view.queues[i].ready.no_duplicates());
        }
        assert forall|other: u128| #[trigger] after.jobs.contains_key(other)
            && after.jobs[other].state == JobState::Queued implies after.is_ready(other) by {
            if other == id {
                let i = model::queue_index(view.queues, name);
                assert(after.queues[i].ready.last() == id);
                assert(after.queues[i].ready.contains(id));
                assert(after.queues[i].name == after.jobs[id].queue);
            } else {
                assert(view.jobs.contains_key(other));
                assert(view.is_ready(other));
                assert forall|i: int|
                    0 <= i < view.queues.len() && view.queues[i].ready.contains(other) implies (
                #[trigger] after.queues[i]).ready.contains(other) by {
                    let ready = view.queues[i].ready;
                    let k = choose|k: int| 0 <= k < ready.len() && ready[k] == other;
                    assert(after.queues[i].ready[k] == other);
                }
                lemma_still_ready(view, after, other);
            }
        }
        lemma_queues_kept(view, after);
        assert(!model::leased(view.leases, id)) by {
            if model::leased(view.leases, id) {
                let k = model::lease_index(view.leases, id);
                assert(view.leases[k].job == id);
            }
        }
        lemma_lease_returned(view, after, id);
    }
}

/// What holds of the coordinator speaks only of jobs, queues, retries and
/// leases; leases may be given up.
pub proof fn lemma_same_work(view: CoordinatorView, after: CoordinatorView)
    requires
        view.well_formed(),
        after.jobs == view.jobs,
        after.queues == view.queues,
        after.retries == view.retries,
        after.cursor == view.cursor,
        after.next_lease_epoch == view.next_lease_epoch,
        (after.leases == view.leases && after.abandoned == view.abandoned) || (after.leases.len()
            == 0 && after.abandoned),
    ensures
        after.well_formed(),
{
    assert forall|id: u128| #[trigger] after.jobs.contains_key(id) && after.jobs[id].state
        == JobState::Queued implies after.is_ready(id) by {
        assert(view.is_ready(id));
        lemma_still_ready(view, after, id);
    }
}

/// A job that ends under its lease is running in a queue that exists.
pub proof fn lemma_admitted_end(view: CoordinatorView, record: RecordView)
    requires
        view.well_formed(),
        view.admits(record),
        record is JobCompleted || record is JobDead || record is JobRetryScheduled,
    ensures
        view.jobs.contains_key(record.job()),
        view.jobs[record.job()].state == JobState::Running,
        model::has_queue(view.queues, view.jobs[record.job()].queue),
        store::apply_fault(view.jobs, record) is None,
{
    lemma_leased_not_scheduled(view, record.job());
}

} // verus!