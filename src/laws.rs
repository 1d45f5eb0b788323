//! Laws of the scheduler, stated over the store views that the operations'
//! contracts use.

use vstd::prelude::*;

use crate::codec::{encodable, lemma_task_bytes_injective, task_bytes};
use crate::scheduler::{
    claimed, consistent, created, decodes, due_set, edited, free_id, removed, reserved, Scheduler,
};
use crate::store::StoreView;
use crate::task::TaskView;

verus! {

/// A job created for a task reads back as that task: its payload is the
/// stored form of the task and of no other task.
pub proof fn law_round_trip(
    s: StoreView,
    t: TaskView,
    id: Seq<char>,
    due: i64,
    link: Option<(u64, u64)>,
)
    requires
        encodable(t),
    ensures
        created(s, t, id, due, link).jobs.contains_key(id),
        decodes(created(s, t, id, due, link).jobs[id]),
        forall|u: TaskView|
            encodable(u) && task_bytes(u) == #[trigger] created(s, t, id, due, link).jobs[id]
                ==> u == t,
{
    let c = created(s, t, id, due, link);
    assert forall|u: TaskView|
        encodable(u) && task_bytes(u) == #[trigger] created(s, t, id, due, link).jobs[id] implies u
        == t by {
        lemma_task_bytes_injective(u, t);
    }
}

/// An id handed out by a reservation stays reserved while jobs are created
/// and edited, so the next reservation hands out a different id.
pub proof fn law_reserve_unique(
    s: StoreView,
    a: Seq<char>,
    b: Seq<char>,
    t: TaskView,
    id: Seq<char>,
    due: i64,
    link: Option<(u64, u64)>,
    new_due: Option<i64>,
)
    requires
        free_id(s, a),
    ensures
        free_id(reserved(s, a), b) ==> a != b,
        reserved(s, a).ids.contains(a),
        created(reserved(s, a), t, id, due, link).ids.contains(a),
        edited(reserved(s, a), t, id, new_due).ids.contains(a),
        reserved(reserved(s, a), b).ids.contains(a),
{
}

/// A claim at `now` takes every job due at `now`: afterwards none is due at
/// `now`, so a second claim at `now` returns nothing.
pub proof fn law_claim_once(s: StoreView, now: i64)
    requires
        consistent(s),
    ensures
        due_set(claimed(s, now), now) == Set::<Seq<char>>::empty(),
        forall|k: Seq<char>| #[trigger]
            due_set(s, now).contains(k) ==> !claimed(s, now).jobs.contains_key(k)
                && !claimed(s, now).schedule.contains_key(k),
        forall|k: Seq<char>|
            s.jobs.contains_key(k) && !due_set(s, now).contains(k) ==> #[trigger] claimed(
                s,
                now,
            ).jobs.contains_key(k) && claimed(s, now).jobs[k] == s.jobs[k],
{
    let c = claimed(s, now);
    assert(due_set(c, now) =~= Set::<Seq<char>>::empty());
}

/// The content map and the time index keep holding the same ids through
/// every create, edit (of a job that exists), removal, claim and reservation.
pub proof fn law_index_consistency(
    s: StoreView,
    t: TaskView,
    id: Seq<char>,
    due: i64,
    link: Option<(u64, u64)>,
    new_due: Option<i64>,
    now: i64,
)
    requires
        consistent(s),
    ensures
        consistent(created(s, t, id, due, link)),
        s.jobs.contains_key(id) ==> consistent(edited(s, t, id, new_due)),
        consistent(removed(s, id)),
        consistent(claimed(s, now)),
        consistent(reserved(s, id)),
{
    assert(created(s, t, id, due, link).jobs.dom() =~= created(s, t, id, due, link).schedule.dom());
    if s.jobs.contains_key(id) {
        assert(edited(s, t, id, new_due).jobs.dom() =~= edited(s, t, id, new_due).schedule.dom());
    }
    assert(removed(s, id).jobs.dom() =~= removed(s, id).schedule.dom());
    let c = claimed(s, now);
    assert(c.jobs.dom() =~= c.schedule.dom());
}

/// Removing a job that is not there changes nothing, and removing twice is
/// removing once.
pub proof fn law_remove_idempotent(s: StoreView, id: Seq<char>)
    ensures
        !s.schedule.contains_key(id) ==> removed(s, id) == s,
        removed(removed(s, id), id) == removed(s, id),
{
}

/// Editing a job without a new due time keeps its schedule: created for
/// `t1` due at `due`, then edited to `t2`, it is not due a second earlier and
/// is due at `due`, where it holds `t2`.
pub proof fn law_edit_keeps_schedule(
    s: StoreView,
    t1: TaskView,
    t2: TaskView,
    id: Seq<char>,
    due: i64,
    link: Option<(u64, u64)>,
)
    requires
        due > i64::MIN,
        encodable(t2),
    ensures
        ({
            let e = edited(created(s, t1, id, due, link), t2, id, None);
            &&& e.schedule[id] == due
            &&& !due_set(e, (due - 1) as i64).contains(id)
            &&& due_set(e, due).contains(id)
            &&& e.jobs[id] == task_bytes(t2)
            &&& forall|u: TaskView| encodable(u) && task_bytes(u) == e.jobs[id] ==> u == t2
        }),
{
    let e = edited(created(s, t1, id, due, link), t2, id, None);
    assert forall|u: TaskView| encodable(u) && task_bytes(u) == e.jobs[id] implies u == t2 by {
        lemma_task_bytes_injective(u, t2);
    }
}

/// Right after a claim at `now`, the scheduler has nothing due at `now`: a
/// second claim at `now` returns no task.
pub proof fn law_second_claim_empty(before: Scheduler, after: Scheduler, now: i64)
    requires
        before.wf(),
        after.wf(),
        after@ == claimed(before@, now),
    ensures
        after.due(now).len() == 0,
{
    before.lemma_due(now);
    law_claim_once(before@, now);
    after.lemma_due(now);
}

/// On a scheduler: a job created for `t1` due at `due` and then edited to
/// `t2` without a new due time is not claimed a second earlier, and is
/// claimed at `due`, holding `t2`.
pub proof fn law_edit_keeps_claims(
    before: Scheduler,
    after: Scheduler,
    t1: TaskView,
    t2: TaskView,
    id: Seq<char>,
    due: i64,
    link: Option<(u64, u64)>,
)
    requires
        before.wf(),
        after.wf(),
        after@ == edited(created(before@, t1, id, due, link), t2, id, None),
        due > i64::MIN,
        encodable(t2),
    ensures
        !after.due((due - 1) as i64).contains(id),
        after.due(due).contains(id),
        after@.jobs[id] == task_bytes(t2),
{
    law_edit_keeps_schedule(before@, t1, t2, id, due, link);
    after.lemma_due((due - 1) as i64);
    after.lemma_due(due);
}

} // verus!
