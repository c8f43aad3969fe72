//! The persisted session: the tasks that survive a restart.

use crate::engine::task;
use crate::engine::task::{DownloadTask, TaskId, TaskView};
use crate::text;
use vstd::prelude::*;

verus! {

/// The first task with this identifier.
pub open spec fn task_at(tasks: Seq<TaskView>, id: Seq<char>) -> Option<int>
    decreases tasks.len(),
{
    if tasks.len() == 0 {
        None
    } else {
        match task_at(tasks.drop_last(), id) {
            Some(i) => Some(i),
            None => if tasks.last().id == id {
                Some(tasks.len() - 1)
            } else {
                None
            },
        }
    }
}

/// What `task_at` finds has the identifier, and nothing before it has.
pub proof fn task_at_is_first(tasks: Seq<TaskView>, id: Seq<char>)
    ensures
        task_at(tasks, id) is None <==> (forall|j: int|
            0 <= j < tasks.len() ==> (#[trigger] tasks[j]).id != id),
        task_at(tasks, id) matches Some(i) ==> {
            &&& 0 <= i < tasks.len()
            &&& tasks[i].id == id
            &&& forall|j: int| 0 <= j < i ==> (#[trigger] tasks[j]).id != id
        },
    decreases tasks.len(),
{
    if tasks.len() > 0 {
        let front = tasks.drop_last();
        task_at_is_first(front, id);
        assert(forall|j: int| 0 <= j < front.len() ==> front[j] == tasks[j]);
    }
}

/// The tasks with `t` in place of the first one with its identifier, or at the
/// end.
pub open spec fn upserted(tasks: Seq<TaskView>, t: TaskView) -> Seq<TaskView> {
    match task_at(tasks, t.id) {
        Some(i) => tasks.update(i, t),
        None => tasks.push(t),
    }
}

/// The tasks without those that have this identifier.
pub open spec fn without(tasks: Seq<TaskView>, id: Seq<char>) -> Seq<TaskView> {
    tasks.filter(|t: TaskView| t.id != id)
}

/// Persisted session: survives daemon restart.
#[derive(Debug)]
pub struct Session {
    pub tasks: Vec<DownloadTask>,
}

impl View for Session {
    type V = Seq<TaskView>;

    open spec fn view(&self) -> Seq<TaskView> {
        task::each_task(self.tasks@)
    }
}

impl Default for Session {
    fn default() -> (session: Self)
        ensures
            session@ == Seq::<TaskView>::empty(),
    {
        Session::new()
    }
}

impl Session {
    pub fn new() -> (session: Self)
        ensures
            session@ == Seq::<TaskView>::empty(),
    {
        let session = Session { tasks: Vec::new() };
        assert(session@ =~= Seq::<TaskView>::empty());
        session
    }

    /// Put a task in the place of the one with its identifier, or add it.
    pub fn upsert(&mut self, task: DownloadTask)
        ensures
            final(self)@ == upserted(old(self)@, task@),
    {
        let ghost before = self@;
        proof {
            task_at_is_first(before, task@.id);
        }
        let mut i: usize = 0;
        while i < self.tasks.len()
            invariant
                *self == *old(self),
                before == self@,
                i <= self.tasks@.len(),
                forall|j: int| 0 <= j < i ==> (#[trigger] before[j]).id != task@.id,
            decreases self.tasks@.len() - i,
        {
            assert(before[i as int] == self.tasks@[i as int]@);
            if text::same(self.tasks[i].id.0.as_str(), task.id.0.as_str()) {
                proof {
                    task_at_is_first(before, task@.id);
                    assert(task_at(before, task@.id) == Some(i as int));
                }
                self.tasks.set(i, task);
                assert(self@ =~= before.update(i as int, task@));
                return;
            }
            i += 1;
        }
        self.tasks.push(task);
        assert(self@ =~= before.push(task@));
    }

    /// Remove a task.
    pub fn remove(&mut self, id: &TaskId)
        ensures
            final(self)@ == without(old(self)@, id.0@),
    {
        let ghost before = self@;
        let ghost keep = |t: TaskView| t.id != id.0@;
        let mut kept: Vec<DownloadTask> = Vec::new();
        let mut i: usize = 0;
        proof {
            reveal(Seq::filter);
            assert(task::each_task(kept@) =~= before.take(0).filter(keep));
        }
        while i < self.tasks.len()
            invariant
                *self == *old(self),
                before == self@,
                i <= self.tasks@.len(),
                keep == (|t: TaskView| t.id != id.0@),
                task::each_task(kept@) == before.take(i as int).filter(keep),
            decreases self.tasks@.len() - i,
        {
            proof {
                reveal(Seq::filter);
                assert(before.take(i + 1).drop_last() =~= before.take(i as int));
                assert(before[i as int] == self.tasks@[i as int]@);
            }
            let ghost so_far = kept@;
            if !text::same(self.tasks[i].id.0.as_str(), id.0.as_str()) {
                kept.push(self.tasks[i].clone());
                assert(task::each_task(kept@) =~= task::each_task(so_far).push(
                    before[i as int],
                ));
            }
            i += 1;
        }
        assert(before.take(i as int) =~= before);
        self.tasks = kept;
    }
}

/// After an upsert the task is there; after a removal none with its identifier
/// is; and neither touches a task with another identifier.
pub proof fn upserts_and_removals_are_local(tasks: Seq<TaskView>, t: TaskView, id: Seq<char>)
    ensures
        upserted(tasks, t).contains(t),
        forall|x: TaskView|
            x.id != t.id ==> (upserted(tasks, t).contains(x) <==> #[trigger] tasks.contains(x)),
        forall|x: TaskView| #[trigger]
            without(tasks, id).contains(x) <==> tasks.contains(x) && x.id != id,
{
    task_at_is_first(tasks, t.id);
    let after = upserted(tasks, t);
    match task_at(tasks, t.id) {
        Some(i) => {
            assert(after[i] == t);
        },
        None => {
            assert(after[tasks.len() as int] == t);
        },
    }
    assert forall|x: TaskView| x.id != t.id implies (after.contains(x)
        <==> #[trigger] tasks.contains(x)) by {
        if after.contains(x) {
            let k = choose|k: int| 0 <= k < after.len() && after[k] == x;
            assert(tasks[k] == x);
        }
        if tasks.contains(x) {
            let k = choose|k: int| 0 <= k < tasks.len() && tasks[k] == x;
            assert(after[k] == x);
        }
    }
    assert forall|x: TaskView| #[trigger] without(tasks, id).contains(x) <==> tasks.contains(x)
        && x.id != id by {
        lemma_without(tasks, id, x);
    }
}

proof fn lemma_without(tasks: Seq<TaskView>, id: Seq<char>, x: TaskView)
    ensures
        without(tasks, id).contains(x) <==> tasks.contains(x) && x.id != id,
    decreases tasks.len(),
{
    reveal(Seq::filter);
    if tasks.len() > 0 {
        let front = tasks.drop_last();
        lemma_without(front, id, x);
        let before = without(front, id);
        let after = without(tasks, id);
        if tasks.last().id != id {
            assert(after == before.push(tasks.last()));
            assert(after[before.len() as int] == tasks.last());
            assert(forall|i: int| 0 <= i < before.len() ==> after[i] == before[i]);
        }
        assert(tasks[front.len() as int] == tasks.last());
        assert(forall|i: int| 0 <= i < front.len() ==> tasks[i] == front[i]);
    }
}

/// An upsert replaces the first task with the identifier where it stands, or adds the task
/// at the end; every other task stays in its place. A removal keeps the order of the rest.
pub proof fn upserts_keep_places(tasks: Seq<TaskView>, t: TaskView, id: Seq<char>)
    ensures
        (forall|i: int| 0 <= i < tasks.len() ==> (#[trigger] tasks[i]).id != t.id) ==> upserted(
            tasks,
            t,
        ) == tasks.push(t),
        forall|i: int|
            0 <= i < tasks.len() && (#[trigger] tasks[i]).id == t.id && (forall|j: int|
                0 <= j < i ==> (#[trigger] tasks[j]).id != t.id) ==> upserted(tasks, t)
                == tasks.update(i, t),
        without(Seq::empty(), id) == Seq::<TaskView>::empty(),
        t.id != id ==> without(tasks.push(t), id) == without(tasks, id).push(t),
        t.id == id ==> without(tasks.push(t), id) == without(tasks, id),
{
    reveal(Seq::filter);
    task_at_is_first(tasks, t.id);
    assert(tasks.push(t).drop_last() =~= tasks);
    assert(without(Seq::empty(), id) =~= Seq::<TaskView>::empty());
}

} // verus!
