//! The task data model: a task has an id, a name, a status and two
//! timestamps; a collection keeps tasks in insertion order together with the
//! next id to allocate. The ghost views and the transition functions here are
//! what every operation's contract speaks of.

use vstd::prelude::*;
use crate::time::Timestamp;

verus! {

#[derive(Clone, Copy, PartialEq, Eq, Structural, Debug)]
pub enum TaskStatus {
    Todo,
    InProgress,
    Done,
}

impl TaskStatus {
    /// The status as the text the document format and the listing use.
    pub fn label(&self) -> (r: String)
        ensures
            r@ == crate::codec::status_str(*self),
    {
        match self {
            TaskStatus::Todo => "Todo".to_owned(),
            TaskStatus::InProgress => "InProgress".to_owned(),
            TaskStatus::Done => "Done".to_owned(),
        }
    }
}

pub struct Task {
    pub id: u64,
    pub name: String,
    pub status: TaskStatus,
    pub created_at: Timestamp,
    pub updated_at: Timestamp,
}

/// The persisted collection: tasks in insertion order and the next id to
/// hand out.
pub struct TaskData {
    pub tasks: Vec<Task>,
    pub id_counter: u64,
}

/// What a task abstractly is: timestamps are instants (nanoseconds since the
/// epoch), the name a sequence of characters.
#[verifier::ext_equal]
pub struct TaskView {
    pub id: u64,
    pub name: Seq<char>,
    pub status: TaskStatus,
    pub created_at: int,
    pub updated_at: int,
}

#[verifier::ext_equal]
pub struct DataView {
    pub tasks: Seq<TaskView>,
    pub next_id: u64,
}

impl View for Task {
    type V = TaskView;

    open spec fn view(&self) -> TaskView {
        TaskView {
            id: self.id,
            name: self.name@,
            status: self.status,
            created_at: self.created_at@,
            updated_at: self.updated_at@,
        }
    }
}

pub open spec fn views_of(ts: Seq<Task>) -> Seq<TaskView> {
    ts.map_values(|t: Task| t@)
}

impl View for TaskData {
    type V = DataView;

    open spec fn view(&self) -> DataView {
        DataView { tasks: views_of(self.tasks@), next_id: self.id_counter }
    }
}

impl TaskData {
    /// Field-level side of the invariant: every stored timestamp has
    /// normalized fields. The view invariant alone does not pin how an
    /// instant splits into seconds and nanoseconds.
    pub open spec fn fields_wf(self) -> bool {
        forall|i: int|
            0 <= i < self.tasks.len() ==> (#[trigger] self.tasks@[i]).created_at.wf()
                && self.tasks@[i].updated_at.wf()
    }

    pub open spec fn inv(self) -> bool {
        self@.wf() && self.fields_wf()
    }
}

/// Largest representable instant, in nanoseconds since the epoch.
pub open spec fn max_instant() -> int {
    253_402_300_799int * 1_000_000_000 + 999_999_999
}

pub open spec fn instant_wf(t: int) -> bool {
    0 <= t <= max_instant()
}

impl TaskView {
    /// A task never claims to have been updated before it was created, and
    /// its timestamps lie in the supported range.
    pub open spec fn wf(self) -> bool {
        &&& instant_wf(self.created_at)
        &&& instant_wf(self.updated_at)
        &&& self.created_at <= self.updated_at
    }
}

impl DataView {
    /// Collection invariant: every task is well formed, ids are pairwise
    /// distinct, and every id was allocated below the counter.
    pub open spec fn wf(self) -> bool {
        &&& forall|i: int| 0 <= i < self.tasks.len() ==> (#[trigger] self.tasks[i]).wf()
        &&& forall|i: int| 0 <= i < self.tasks.len() ==> (#[trigger] self.tasks[i]).id < self.next_id
        &&& forall|i: int, j: int|
            0 <= i < j < self.tasks.len() ==> self.tasks[i].id != self.tasks[j].id
    }

    pub open spec fn empty_view() -> DataView {
        DataView { tasks: Seq::empty(), next_id: 0 }
    }
}

/// A timestamp with well-formed fields denotes a well-formed instant.
pub proof fn lemma_ts_wf_instant(t: Timestamp)
    requires
        t.wf(),
    ensures
        instant_wf(t@),
{
    assert(t@ == t.secs * 1_000_000_000 + t.nanos);
    assert(t.secs * 1_000_000_000 <= 253_402_300_799int * 1_000_000_000) by (nonlinear_arith)
        requires
            t.secs <= 253_402_300_799,
    ;
    assert(t.secs * 1_000_000_000 >= 0) by (nonlinear_arith)
        requires
            t.secs >= 0,
    ;
}

/// The two mutations `update` can apply to a task.
pub enum Mutation {
    Rename(String),
    SetStatus(TaskStatus),
}

pub enum MutationView {
    Rename(Seq<char>),
    SetStatus(TaskStatus),
}

impl View for Mutation {
    type V = MutationView;

    open spec fn view(&self) -> MutationView {
        match self {
            Mutation::Rename(n) => MutationView::Rename(n@),
            Mutation::SetStatus(s) => MutationView::SetStatus(*s),
        }
    }
}

/// What an `update` or `delete` reports.
#[derive(Clone, Copy, PartialEq, Eq, Structural, Debug)]
pub enum Outcome {
    /// The task was found and changed; the collection must be persisted.
    Changed,
    /// The task was found but the mutation left it as it was; nothing to persist.
    Unchanged,
    /// No task carries the requested id.
    NotFound,
}

/// Index of the first task with the given id, or -1 if there is none.
pub open spec fn first_idx(ts: Seq<TaskView>, id: u64) -> int
    decreases ts.len(),
{
    if ts.len() == 0 {
        -1
    } else if ts[0].id == id {
        0
    } else {
        let r = first_idx(ts.drop_first(), id);
        if r < 0 {
            -1
        } else {
            r + 1
        }
    }
}

pub open spec fn contains_id(ts: Seq<TaskView>, id: u64) -> bool {
    exists|i: int| 0 <= i < ts.len() && (#[trigger] ts[i]).id == id
}

/// `first_idx` finds an occurrence exactly when one exists, and then the
/// first one.
pub proof fn lemma_first_idx(ts: Seq<TaskView>, id: u64)
    ensures
        (first_idx(ts, id) >= 0) == contains_id(ts, id),
        first_idx(ts, id) >= 0 ==> {
            &&& first_idx(ts, id) < ts.len()
            &&& ts[first_idx(ts, id)].id == id
            &&& forall|k: int| 0 <= k < first_idx(ts, id) ==> (#[trigger] ts[k]).id != id
        },
    decreases ts.len(),
{
    if ts.len() == 0 {
    } else if ts[0].id == id {
    } else {
        lemma_first_idx(ts.drop_first(), id);
        assert(forall|i: int|
            1 <= i < ts.len() ==> ts.drop_first()[i - 1] == #[trigger] ts[i]);
        if contains_id(ts, id) {
            let i = choose|i: int| 0 <= i < ts.len() && (#[trigger] ts[i]).id == id;
            assert(ts.drop_first()[i - 1].id == id);
        }
    }
}

/// A position with the id and no earlier occurrence is the one `first_idx`
/// picks.
pub proof fn lemma_first_idx_at(ts: Seq<TaskView>, id: u64, j: int)
    requires
        0 <= j < ts.len(),
        ts[j].id == id,
        forall|k: int| 0 <= k < j ==> (#[trigger] ts[k]).id != id,
    ensures
        first_idx(ts, id) == j,
    decreases ts.len(),
{
    if ts[0].id == id {
    } else {
        assert(forall|i: int|
            1 <= i < ts.len() ==> ts.drop_first()[i - 1] == #[trigger] ts[i]);
        lemma_first_idx_at(ts.drop_first(), id, j - 1);
    }
}

/// Adding a task allocates the counter as its id, stamps both timestamps
/// with `now`, appends it, and moves the counter up.
pub open spec fn add_spec(d: DataView, name: Seq<char>, now: int) -> DataView {
    DataView {
        tasks: d.tasks.push(
            TaskView {
                id: d.next_id,
                name: name,
                status: TaskStatus::Todo,
                created_at: now,
                updated_at: now,
            },
        ),
        next_id: (d.next_id + 1) as u64,
    }
}

pub open spec fn apply_mutation(m: MutationView, t: TaskView) -> TaskView {
    match m {
        MutationView::Rename(n) => TaskView { name: n, ..t },
        MutationView::SetStatus(s) => TaskView { status: s, ..t },
    }
}

/// Change detection: whether the mutation makes any observable difference.
pub open spec fn mutation_changes(m: MutationView, t: TaskView) -> bool {
    match m {
        MutationView::Rename(n) => n != t.name,
        MutationView::SetStatus(s) => s != t.status,
    }
}

/// The `updated_at` a changed task receives: the clock reading, but never
/// earlier than the task's previous `updated_at`, so the stamp cannot move
/// backwards even if the clock does.
pub open spec fn bumped_instant(now: int, t: TaskView) -> int {
    if now <= t.updated_at {
        t.updated_at
    } else {
        now
    }
}

/// Updating: not found leaves the collection as it is; a no-op mutation
/// leaves it as it is; otherwise exactly the addressed task is replaced by
/// its mutated copy with a fresh `updated_at`.
pub open spec fn update_spec(d: DataView, id: u64, m: MutationView, now: int) -> (DataView, Outcome) {
    let j = first_idx(d.tasks, id);
    if j < 0 {
        (d, Outcome::NotFound)
    } else if !mutation_changes(m, d.tasks[j]) {
        (d, Outcome::Unchanged)
    } else {
        let t2 = TaskView { updated_at: bumped_instant(now, d.tasks[j]), ..apply_mutation(m, d.tasks[j]) };
        (DataView { tasks: d.tasks.update(j, t2), ..d }, Outcome::Changed)
    }
}

/// Deleting: the addressed task is removed, the order of the rest and the
/// counter are kept; a missing id leaves the collection as it is.
pub open spec fn delete_spec(d: DataView, id: u64) -> (DataView, Outcome) {
    let j = first_idx(d.tasks, id);
    if j < 0 {
        (d, Outcome::NotFound)
    } else {
        (DataView { tasks: d.tasks.remove(j), ..d }, Outcome::Changed)
    }
}

/// Whether a task passes an optional status filter.
pub open spec fn passes_filter(t: TaskView, f: Option<TaskStatus>) -> bool {
    match f {
        Option::None => true,
        Option::Some(s) => t.status == s,
    }
}

/// What `list` returns: the tasks that pass the filter, in stored order.
pub open spec fn list_spec(ts: Seq<TaskView>, f: Option<TaskStatus>) -> Seq<TaskView> {
    ts.filter(|t: TaskView| passes_filter(t, f))
}

} // verus!
