//! The operations on a task collection: add, list, update and delete. Each
//! contract says exactly what the collection becomes, through the transition
//! functions of the model.

use vstd::prelude::*;
use vstd::pervasive::VecAdditionalExecFns;
use crate::task::{
    add_spec, delete_spec, first_idx, lemma_first_idx, lemma_first_idx_at, list_spec,
    passes_filter, update_spec, views_of, DataView, Mutation, Outcome, Task, TaskData, TaskStatus,
    TaskView,
};
use crate::time::Timestamp;

verus! {

/// Index of the first task carrying `id`, if any.
fn find_index(tasks: &Vec<Task>, id: u64) -> (r: Option<usize>)
    ensures
        match r {
            Some(j) => first_idx(views_of(tasks@), id) == j && j < tasks@.len(),
            None => first_idx(views_of(tasks@), id) == -1,
        },
{
    let ghost vs = views_of(tasks@);
    let n = tasks.len();
    let mut i: usize = 0;
    while i < n
        invariant
            i <= n,
            n == tasks@.len(),
            vs == views_of(tasks@),
            forall|k: int| 0 <= k < i ==> (#[trigger] vs[k]).id != id,
        decreases n - i,
    {
        if tasks[i].id == id {
            proof {
                lemma_first_idx_at(vs, id, i as int);
            }
            return Some(i);
        }
        i = i + 1;
    }
    proof {
        lemma_first_idx(vs, id);
    }
    None
}

impl TaskData {
    /// A fresh collection: no tasks, next id 0.
    pub fn empty() -> (d: TaskData)
        ensures
            d@ == DataView::empty_view(),
            d.inv(),
    {
        let d = TaskData { tasks: Vec::new(), id_counter: 0 };
        proof {
            assert(d@.tasks =~= Seq::<TaskView>::empty());
            assert(d@ =~= DataView::empty_view());
        }
        d
    }

    /// Appends a new task named `name` with status `Todo` and both
    /// timestamps set to `now`, allocating the next id, which is returned.
    pub fn add(&mut self, name: String, now: Timestamp) -> (id: u64)
        requires
            old(self).inv(),
            now.wf(),
            old(self).id_counter < u64::MAX,
        ensures
            id == old(self)@.next_id,
            final(self)@ == add_spec(old(self)@, name@, now@),
            final(self).inv(),
    {
        let ghost nm = name@;
        let id = self.id_counter;
        let t = Task { id, name, status: TaskStatus::Todo, created_at: now, updated_at: now };
        let ghost tv = t@;
        self.tasks.push(t);
        self.id_counter = self.id_counter + 1;
        proof {
            let ov = old(self)@;
            assert(self@.tasks =~= ov.tasks.push(tv));
            assert(self@ =~= add_spec(ov, nm, now@));
            assert forall|i: int| 0 <= i < self@.tasks.len() implies (
                #[trigger] self@.tasks[i]).wf() && self@.tasks[i].id < self@.next_id by {
                if i < ov.tasks.len() {
                    assert(ov.tasks[i].wf() && ov.tasks[i].id < ov.next_id);
                }
            }
            assert forall|i: int, j: int|
                0 <= i < j < self@.tasks.len() implies self@.tasks[i].id != self@.tasks[j].id by {
                if j < ov.tasks.len() {
                } else {
                    assert(ov.tasks[i].id < ov.next_id);
                }
            }
            assert forall|i: int|
                0 <= i < self.tasks.len() implies (#[trigger] self.tasks@[i]).created_at.wf()
                    && self.tasks@[i].updated_at.wf() by {
                if i < old(self).tasks.len() {
                    assert(old(self).tasks@[i].created_at.wf());
                }
            }
        }
        id
    }

    /// The tasks that pass the filter, in stored order, as copies. Listing
    /// reads the collection and changes nothing.
    pub fn list(&self, f: Option<TaskStatus>) -> (r: Vec<Task>)
        ensures
            views_of(r@) == list_spec(self@.tasks, f),
    {
        let ghost vs = self@.tasks;
        let ghost pred = |t: TaskView| passes_filter(t, f);
        let mut r: Vec<Task> = Vec::new();
        proof {
            assert(views_of(r@) =~= vs.take(0).filter(pred));
        }
        let n = self.tasks.len();
        let mut i: usize = 0;
        while i < n
            invariant
                i <= n,
                n == self.tasks@.len(),
                vs == self@.tasks,
                pred == (|t: TaskView| passes_filter(t, f)),
                views_of(r@) == vs.take(i as int).filter(pred),
            decreases n - i,
        {
            let t = &self.tasks[i];
            let keep = match f {
                Option::None => true,
                Option::Some(s) => t.status == s,
            };
            proof {
                reveal(Seq::filter);
                assert(vs.take(i + 1).drop_last() =~= vs.take(i as int));
                assert(vs.take(i + 1).last() == vs[i as int]);
                assert(keep == pred(vs[i as int]));
            }
            if keep {
                let copy = Task {
                    id: t.id,
                    name: t.name.clone(),
                    status: t.status,
                    created_at: t.created_at,
                    updated_at: t.updated_at,
                };
                proof {
                    assert(copy@ =~= vs[i as int]);
                }
                r.push(copy);
            }
            proof {
                assert(views_of(r@) =~= vs.take(i + 1).filter(pred));
            }
            i = i + 1;
        }
        proof {
            assert(vs.take(n as int) =~= vs);
        }
        r
    }

    /// Applies a mutation to the task carrying `id`, with change detection:
    /// only a mutation that makes an observable difference replaces the task
    /// and stamps `updated_at`; the stamp never moves backwards even if the
    /// clock does.
    pub fn update(&mut self, id: u64, m: Mutation, now: Timestamp) -> (o: Outcome)
        requires
            old(self).inv(),
            now.wf(),
        ensures
            final(self)@ == update_spec(old(self)@, id, m@, now@).0,
            o == update_spec(old(self)@, id, m@, now@).1,
            final(self).inv(),
    {
        let ghost ov = old(self)@;
        match find_index(&self.tasks, id) {
            Option::None => Outcome::NotFound,
            Option::Some(j) => {
                proof {
                    lemma_first_idx(ov.tasks, id);
                }
                let changed = match &m {
                    Mutation::Rename(nm) => !(*nm == self.tasks[j].name),
                    Mutation::SetStatus(s) => !(*s == self.tasks[j].status),
                };
                if !changed {
                    Outcome::Unchanged
                } else {
                    let tref = &self.tasks[j];
                    let new_updated = if now.le(&tref.updated_at) {
                        tref.updated_at
                    } else {
                        now
                    };
                    let t2 = match m {
                        Mutation::Rename(nm) => Task {
                            id: tref.id,
                            name: nm,
                            status: tref.status,
                            created_at: tref.created_at,
                            updated_at: new_updated,
                        },
                        Mutation::SetStatus(s) => Task {
                            id: tref.id,
                            name: tref.name.clone(),
                            status: s,
                            created_at: tref.created_at,
                            updated_at: new_updated,
                        },
                    };
                    let ghost t2v = t2@;
                    self.tasks.set(j, t2);
                    proof {
                        let sv = update_spec(ov, id, m@, now@).0;
                        assert(self@.tasks =~= ov.tasks.update(j as int, t2v));
                        assert(t2v =~= sv.tasks[j as int]);
                        assert(self@ =~= sv);
                        assert forall|i: int| 0 <= i < self@.tasks.len() implies (
                            #[trigger] self@.tasks[i]).wf() && self@.tasks[i].id
                            < self@.next_id by {
                            assert(ov.tasks[i].wf() && ov.tasks[i].id < ov.next_id);
                        }
                        assert forall|i: int, k: int|
                            0 <= i < k < self@.tasks.len() implies self@.tasks[i].id
                            != self@.tasks[k].id by {
                            assert(ov.tasks[i].id != ov.tasks[k].id);
                        }
                        assert forall|i: int|
                            0 <= i < self.tasks.len() implies (
                        #[trigger] self.tasks@[i]).created_at.wf()
                            && self.tasks@[i].updated_at.wf() by {
                            assert(old(self).tasks@[i].created_at.wf());
                            assert(old(self).tasks@[i].updated_at.wf());
                        }
                    }
                    Outcome::Changed
                }
            },
        }
    }

    /// Removes the task carrying `id`, keeping the order of the rest and the
    /// id counter; a missing id changes nothing.
    pub fn delete(&mut self, id: u64) -> (o: Outcome)
        requires
            old(self).inv(),
        ensures
            final(self)@ == delete_spec(old(self)@, id).0,
            o == delete_spec(old(self)@, id).1,
            final(self).inv(),
    {
        let ghost ov = old(self)@;
        match find_index(&self.tasks, id) {
            Option::None => Outcome::NotFound,
            Option::Some(j) => {
                proof {
                    lemma_first_idx(ov.tasks, id);
                }
                self.tasks.remove(j);
                proof {
                    assert(self@.tasks =~= ov.tasks.remove(j as int));
                    assert(self@ =~= delete_spec(ov, id).0);
                    assert forall|i: int| 0 <= i < self@.tasks.len() implies (
                        #[trigger] self@.tasks[i]).wf() && self@.tasks[i].id < self@.next_id by {
                        if i < j {
                            assert(ov.tasks[i].wf() && ov.tasks[i].id < ov.next_id);
                        } else {
                            assert(ov.tasks[i + 1].wf() && ov.tasks[i + 1].id < ov.next_id);
                        }
                    }
                    assert forall|i: int, k: int|
                        0 <= i < k < self@.tasks.len() implies self@.tasks[i].id
                        != self@.tasks[k].id by {
                        let i0: int = if i < j { i } else { i + 1 };
                        let k0: int = if k < j { k } else { k + 1 };
                        assert(ov.tasks[i0].id != ov.tasks[k0].id);
                    }
                    assert forall|i: int|
                        0 <= i < self.tasks.len() implies (
                    #[trigger] self.tasks@[i]).created_at.wf()
                        && self.tasks@[i].updated_at.wf() by {
                        let i0: int = if i < j { i } else { i + 1 };
                        assert(old(self).tasks@[i0].created_at.wf());
                        assert(old(self).tasks@[i0].updated_at.wf());
                    }
                }
                Outcome::Changed
            },
        }
    }
}

} // verus!
