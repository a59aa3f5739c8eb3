//! The general properties of the tracker, proved once and for all over the
//! transition functions that the operations' contracts are stated with.

use vstd::prelude::*;
use crate::codec::doc_json;
use crate::task::{
    add_spec, bumped_instant, contains_id, delete_spec, first_idx, lemma_first_idx, list_spec,
    mutation_changes, passes_filter, update_spec, DataView, MutationView, Outcome, TaskStatus,
    TaskView,
};

verus! {

/// Ids are never reused. In a well-formed collection every stored id lies
/// below the counter, so the id `add` assigns — the counter itself — is new;
/// `add` then moves the counter up, and no other operation moves it at all.
/// Hence the ids assigned by successive `add` calls strictly increase and
/// never repeat, whatever updates and deletes come between.
pub proof fn lemma_ids_never_reused(
    d: DataView,
    name: Seq<char>,
    now: int,
    id: u64,
    m: MutationView,
)
    requires
        d.wf(),
        d.next_id < u64::MAX,
    ensures
        forall|i: int| 0 <= i < d.tasks.len() ==> (#[trigger] d.tasks[i]).id < d.next_id,
        add_spec(d, name, now).tasks.last().id == d.next_id,
        add_spec(d, name, now).next_id == d.next_id + 1,
        update_spec(d, id, m, now).0.next_id == d.next_id,
        delete_spec(d, id).0.next_id == d.next_id,
{
}

/// Listing everything filters nothing: `list` without a filter returns the
/// stored tasks as they are.
pub proof fn lemma_list_unfiltered(ts: Seq<TaskView>)
    ensures
        list_spec(ts, Option::None) == ts,
    decreases ts.len(),
{
    reveal(Seq::filter);
    if ts.len() == 0 {
        assert(list_spec(ts, Option::None) =~= ts);
    } else {
        lemma_list_unfiltered(ts.drop_last());
        assert(list_spec(ts, Option::None) =~= ts);
    }
}

proof fn lemma_filter_pointwise(
    ts: Seq<TaskView>,
    p1: spec_fn(TaskView) -> bool,
    p2: spec_fn(TaskView) -> bool,
)
    requires
        forall|t: TaskView| #[trigger] p1(t) == p2(t),
    ensures
        ts.filter(p1) == ts.filter(p2),
    decreases ts.len(),
{
    reveal(Seq::filter);
    if ts.len() == 0 {
    } else {
        lemma_filter_pointwise(ts.drop_last(), p1, p2);
        assert(ts.filter(p1) =~= ts.filter(p2));
    }
}

/// Adding to a fresh collection and listing without a filter shows exactly
/// one task: the one just added, named as asked, with status `Todo` and its
/// two timestamps equal.
pub proof fn lemma_add_to_empty_then_list(name: Seq<char>, now: int)
    ensures
        ({
            let d2 = add_spec(DataView::empty_view(), name, now);
            &&& list_spec(d2.tasks, Option::None) == d2.tasks
            &&& d2.tasks.len() == 1
            &&& d2.tasks[0].name == name
            &&& d2.tasks[0].status == TaskStatus::Todo
            &&& d2.tasks[0].created_at == now
            &&& d2.tasks[0].created_at == d2.tasks[0].updated_at
        }),
{
    let d2 = add_spec(DataView::empty_view(), name, now);
    lemma_list_unfiltered(d2.tasks);
}

/// Marking a task with the status it already has is a no-op: the collection
/// is untouched, the outcome says so, and the persisted document — a pure
/// function of the collection — is byte-identical.
pub proof fn lemma_mark_same_status(d: DataView, id: u64, now: int)
    requires
        contains_id(d.tasks, id),
    ensures
        ({
            let j = first_idx(d.tasks, id);
            let r = update_spec(d, id, MutationView::SetStatus(d.tasks[j].status), now);
            &&& r.0 == d
            &&& r.1 == Outcome::Unchanged
            &&& doc_json(r.0) == doc_json(d)
        }),
{
    lemma_first_idx(d.tasks, id);
}

/// Any mutation that makes no observable difference — a status a task
/// already has, a name it already carries — leaves the collection untouched
/// and the persisted document byte-identical, and reports so.
pub proof fn lemma_noop_mutation(d: DataView, id: u64, m: MutationView, now: int)
    requires
        contains_id(d.tasks, id),
        !mutation_changes(m, d.tasks[first_idx(d.tasks, id)]),
    ensures
        update_spec(d, id, m, now) == (d, Outcome::Unchanged),
        doc_json(update_spec(d, id, m, now).0) == doc_json(d),
{
    lemma_first_idx(d.tasks, id);
}

/// Marking a task with a different status changes exactly that task: it gets
/// the new status and an `updated_at` no earlier than its previous one (and
/// no earlier than the clock reading), and the outcome asks for persistence.
pub proof fn lemma_mark_new_status(d: DataView, id: u64, st: TaskStatus, now: int)
    requires
        contains_id(d.tasks, id),
        st != d.tasks[first_idx(d.tasks, id)].status,
    ensures
        ({
            let j = first_idx(d.tasks, id);
            let r = update_spec(d, id, MutationView::SetStatus(st), now);
            &&& r.1 == Outcome::Changed
            &&& r.0.tasks[j].status == st
            &&& r.0.tasks[j].updated_at == bumped_instant(now, d.tasks[j])
            &&& r.0.tasks[j].updated_at >= d.tasks[j].updated_at
            &&& r.0.tasks[j].updated_at >= now
            &&& r.0.tasks == d.tasks.update(j, r.0.tasks[j])
            &&& forall|k: int|
                0 <= k < d.tasks.len() && k != j ==> r.0.tasks[k] == d.tasks[k]
            &&& r.0 != d
        }),
{
    lemma_first_idx(d.tasks, id);
    let j = first_idx(d.tasks, id);
    let r = update_spec(d, id, MutationView::SetStatus(st), now);
    assert(r.0.tasks[j].status != d.tasks[j].status);
}

/// Deleting a missing id changes nothing — the persisted document stays
/// byte-identical — and reports not-found; deleting a present id removes
/// exactly the task carrying it and keeps the rest in order.
pub proof fn lemma_delete(d: DataView, id: u64)
    requires
        d.wf(),
    ensures
        !contains_id(d.tasks, id) ==> delete_spec(d, id) == (d, Outcome::NotFound)
            && doc_json(delete_spec(d, id).0) == doc_json(d),
        contains_id(d.tasks, id) ==> ({
            let j = first_idx(d.tasks, id);
            let r = delete_spec(d, id);
            &&& r.1 == Outcome::Changed
            &&& d.tasks[j].id == id
            &&& r.0.tasks == d.tasks.remove(j)
            &&& forall|k: int| 0 <= k < j ==> r.0.tasks[k] == d.tasks[k]
            &&& forall|k: int| j <= k < r.0.tasks.len() ==> r.0.tasks[k] == d.tasks[k + 1]
            &&& forall|k: int| 0 <= k < r.0.tasks.len() ==> (#[trigger] r.0.tasks[k]).id != id
        }),
{
    lemma_first_idx(d.tasks, id);
    if contains_id(d.tasks, id) {
        let j = first_idx(d.tasks, id);
        let r = delete_spec(d, id);
        assert forall|k: int| 0 <= k < r.0.tasks.len() implies (#[trigger] r.0.tasks[k]).id
            != id by {
            if k < j {
                assert(d.tasks[k].id != id);
            } else {
                assert(r.0.tasks[k] == d.tasks[k + 1]);
                assert(d.tasks[k + 1].id != d.tasks[j].id);
            }
        }
    }
}

/// Listing with a status filter returns exactly the filter of the full
/// listing: the tasks with that status, in their original relative order.
pub proof fn lemma_list_status_filter(ts: Seq<TaskView>, st: TaskStatus)
    ensures
        list_spec(ts, Option::Some(st)) == list_spec(ts, Option::None).filter(
            |t: TaskView| t.status == st,
        ),
        forall|i: int|
            0 <= i < list_spec(ts, Option::Some(st)).len() ==> (#[trigger] list_spec(
                ts,
                Option::Some(st),
            )[i]).status == st,
{
    lemma_list_unfiltered(ts);
    lemma_filter_pointwise(
        ts,
        |t: TaskView| passes_filter(t, Option::Some(st)),
        |t: TaskView| t.status == st,
    );
    assert forall|i: int| 0 <= i < list_spec(ts, Option::Some(st)).len() implies (
    #[trigger] list_spec(ts, Option::Some(st))[i]).status == st by {
        ts.lemma_filter_pred(|t: TaskView| passes_filter(t, Option::Some(st)), i);
    }
}

/// A text that is not the canonical document of any well-formed collection
/// can only come back from a load as the fresh empty collection, whose
/// counter is 0. (The first clause of the requires is what `from_json`
/// guarantees of its result.)
pub proof fn lemma_corrupt_text_yields_empty(s: Seq<char>, d: DataView)
    requires
        d.wf(),
        d == DataView::empty_view() || doc_json(d) == s,
        forall|d2: DataView| d2.wf() ==> #[trigger] doc_json(d2) != s,
    ensures
        d == DataView::empty_view(),
        d.next_id == 0,
{
    assert(doc_json(d) != s);
}

} // verus!
