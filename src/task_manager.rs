use crate::db::{failed_batch, flush_batch, upsert_ops, DBHelper, StorageError, StoreOp};
use crate::task::{
    done_of, lemma_done_members, lemma_pending_members, lemma_pending_unique_details,
    lemma_push_contains, lemma_push_unique_details, pending_of, put_task, unique_details, views,
    Task, TaskView,
};
use vstd::prelude::*;

verus! {

/// A task value with its completion flag inverted.
pub open spec fn flipped(t: TaskView) -> TaskView {
    (t.0, !t.1)
}

/// The set after toggling `t`: where `t` is there it is replaced by its flipped
/// value; otherwise the set is left as it is.
pub open spec fn toggled_set(s: Set<TaskView>, t: TaskView) -> Set<TaskView> {
    if s.contains(t) {
        s.remove(t).insert(flipped(t))
    } else {
        s
    }
}

/// Toggling a task twice gives back a task with its first completion flag and
/// the same details; where the flipped value was not there before, the set is
/// restored exactly.
pub proof fn lemma_toggle_twice(s: Set<TaskView>, t: TaskView)
    requires
        s.contains(t),
    ensures
        toggled_set(s, t).contains(flipped(t)),
        toggled_set(toggled_set(s, t), flipped(t)).contains(t),
        !s.contains(flipped(t)) ==> toggled_set(toggled_set(s, t), flipped(t)) == s,
{
    assert(flipped(flipped(t)) == t);
    if !s.contains(flipped(t)) {
        assert(toggled_set(toggled_set(s, t), flipped(t)) =~= s);
    }
}

/// The pending tasks of `tasks`, in their order.
pub fn pending_tasks(tasks: &Vec<Task>) -> (r: Vec<Task>)
    ensures
        views(r@) == pending_of(views(tasks@)),
{
    let mut kept: Vec<Task> = Vec::new();
    let mut i: usize = 0;
    while i < tasks.len()
        invariant
            i <= tasks@.len(),
            views(kept@) == pending_of(views(tasks@).take(i as int)),
        decreases tasks@.len() - i,
    {
        proof {
            assert(views(tasks@).take(i + 1).drop_last() =~= views(tasks@).take(i as int));
        }
        if !tasks[i].complete {
            kept.push(tasks[i].duplicate());
        }
        proof {
            assert(views(kept@) =~= pending_of(views(tasks@).take(i + 1)));
        }
        i = i + 1;
    }
    proof {
        assert(views(tasks@).take(i as int) =~= views(tasks@));
    }
    kept
}

/// The session's set of tasks, and the store it is kept in.
pub struct TaskManager {
    pub tasks: Vec<Task>,
    pub db: DBHelper,
}

impl View for TaskManager {
    type V = Set<TaskView>;

    open spec fn view(&self) -> Set<TaskView> {
        views(self.tasks@).to_set()
    }
}

impl TaskManager {
    /// No two tasks of the set share their details.
    pub open spec fn wf(&self) -> bool {
        unique_details(views(self.tasks@))
    }

    /// An empty task set over the store at the default path.
    pub fn new() -> (r: Result<TaskManager, StorageError>)
        ensures
            r is Ok ==> r->Ok_0.tasks@.len() == 0 && r->Ok_0.wf() && r->Ok_0.db.log() == seq![
                StoreOp::CreateTable,
            ] && r->Ok_0.db.path() == crate::db::DEFAULT_DB_PATH_STR@,
            r is Err ==> r == Err::<TaskManager, StorageError>(StorageError::Unavailable),
    {
        match DBHelper::open_default() {
            Ok(db) => Ok(TaskManager::with_store(db)),
            Err(e) => Err(e),
        }
    }

    /// An empty task set over the given store.
    pub fn with_store(db: DBHelper) -> (r: TaskManager)
        ensures
            r.tasks@.len() == 0,
            r.wf(),
            r.db == db,
    {
        let r = TaskManager { tasks: Vec::new(), db };
        assert(views(r.tasks@) =~= Seq::<TaskView>::empty());
        r
    }

    /// Adds a new, incomplete task. A task with the same details that is
    /// already there is replaced, so adding twice is the same as adding once.
    ///
    /// This does not persist the task.
    pub fn add_new_task(&mut self, task_details: &str)
        ensures
            final(self)@ == old(self)@.filter(|v: TaskView| v.0 != task_details@).insert(
                (task_details@, false),
            ),
            final(self)@.contains((task_details@, false)),
            old(self).wf() ==> final(self).wf(),
            final(self).db == old(self).db,
    {
        let new_task = Task::new(task_details);
        put_task(&mut self.tasks, new_task);
        assert(self@ =~= old(self)@.filter(|v: TaskView| v.0 != task_details@).insert(
            (task_details@, false),
        ));
    }

    /// Toggles the completion flag of the task equal to `task`; where there is
    /// none, nothing changes.
    ///
    /// This does not persist the change.
    pub fn toggle_completion(&mut self, task: &Task)
        ensures
            old(self).wf() ==> final(self)@ == toggled_set(old(self)@, task@),
            old(self).wf() ==> final(self).wf(),
            !old(self)@.contains(task@) ==> final(self).tasks@ == old(self).tasks@,
            final(self).db == old(self).db,
    {
        let mut kept: Vec<Task> = Vec::new();
        let mut found = false;
        let mut i: usize = 0;
        proof {
            assert(views(kept@) =~= Seq::<TaskView>::empty());
            assert(self.tasks@.take(0) =~= kept@);
        }
        while i < self.tasks.len()
            invariant
                i <= self.tasks@.len(),
                self.tasks@ == old(self).tasks@,
                self.db == old(self).db,
                found == views(self.tasks@).take(i as int).contains(task@),
                !found ==> kept@ == self.tasks@.take(i as int),
                forall|v: TaskView| #[trigger]
                    views(kept@).contains(v) <==> (views(self.tasks@).take(i as int).contains(v)
                        && v != task@),
                old(self).wf() ==> unique_details(views(kept@)),
            decreases self.tasks@.len() - i,
        {
            let ghost before = kept@;
            let ghost s = views(self.tasks@);
            proof {
                assert(s.take(i + 1) =~= s.take(i as int).push(s[i as int]));
                assert(self.tasks@.take(i + 1) =~= self.tasks@.take(i as int).push(
                    self.tasks@[i as int],
                ));
                lemma_push_contains(s.take(i as int), s[i as int]);
            }
            if self.tasks[i].same_value(task) {
                found = true;
            } else {
                kept.push(self.tasks[i].duplicate());
                proof {
                    let x = s[i as int];
                    assert(views(kept@) =~= views(before).push(x));
                    lemma_push_contains(views(before), x);
                    if old(self).wf() {
                        let kb = views(before);
                        assert forall|k: int| 0 <= k < kb.len() implies (#[trigger] kb[k]).0
                            != x.0 by {
                            assert(kb.contains(kb[k]));
                            let m = choose|m: int| 0 <= m < i && s.take(i as int)[m] == kb[k];
                            assert(s[m] == kb[k]);
                        }
                        lemma_push_unique_details(kb, x);
                    }
                }
            }
            i = i + 1;
        }
        proof {
            assert(views(self.tasks@).take(i as int) =~= views(self.tasks@));
            assert(self.tasks@.take(i as int) =~= self.tasks@);
        }
        if found {
            let ghost kv = views(kept@);
            put_task(&mut kept, task.toggled());
            proof {
                if old(self).wf() {
                    let s = views(self.tasks@);
                    assert forall|v: TaskView| s.contains(v) && v.0 == task@.0 implies v
                        == task@ by {
                        let a = choose|a: int| 0 <= a < s.len() && s[a] == v;
                        let b = choose|b: int| 0 <= b < s.len() && s[b] == task@;
                        if a != b {
                            assert(s[a].0 != s[b].0);
                        }
                    }
                }
            }
        }
        self.tasks = kept;
        proof {
            if old(self).wf() {
                assert(self@ =~= toggled_set(old(self)@, task@));
            }
        }
    }

    /// Removes every completed task, here and in the store.
    ///
    /// The tasks are removed here whatever the store answers.
    pub fn remove_completed_tasks(&mut self) -> (r: Result<(), StorageError>)
        ensures
            views(final(self).tasks@) == pending_of(views(old(self).tasks@)),
            final(self)@ == old(self)@.filter(|v: TaskView| !v.1),
            old(self).wf() ==> final(self).wf(),
            r is Ok ==> final(self).db.log() == old(self).db.log().push(StoreOp::DeleteCompleted),
            r is Err ==> final(self).db.log() == old(self).db.log(),
            r is Err ==> r == Err::<(), StorageError>(StorageError::Write),
    {
        let kept = pending_tasks(&self.tasks);
        proof {
            lemma_pending_members(views(self.tasks@));
            if old(self).wf() {
                lemma_pending_unique_details(views(self.tasks@));
            }
        }
        self.tasks = kept;
        assert(self@ =~= old(self)@.filter(|v: TaskView| !v.1));
        self.db.delete_completed_tasks()
    }

    /// The tasks with every incomplete one before every completed one.
    pub fn get_ordered_tasks_list(&self) -> (r: Vec<Task>)
        ensures
            views(r@) == pending_of(views(self.tasks@)) + done_of(views(self.tasks@)),
            views(r@).to_set() == self@,
            forall|i: int, j: int|
                0 <= i < j < r@.len() && (#[trigger] r@[i]).complete ==> (#[trigger] r@[j]).complete,
    {
        let mut ordered = pending_tasks(&self.tasks);
        let ghost first = ordered@;
        let mut i: usize = 0;
        while i < self.tasks.len()
            invariant
                i <= self.tasks@.len(),
                views(first) == pending_of(views(self.tasks@)),
                views(ordered@) == views(first) + done_of(views(self.tasks@).take(i as int)),
            decreases self.tasks@.len() - i,
        {
            proof {
                assert(views(self.tasks@).take(i + 1).drop_last() =~= views(self.tasks@).take(
                    i as int,
                ));
            }
            let ghost before = ordered@;
            if self.tasks[i].complete {
                ordered.push(self.tasks[i].duplicate());
                proof {
                    assert(views(ordered@) =~= views(before).push(self.tasks@[i as int]@));
                }
            }
            proof {
                assert(views(ordered@) =~= views(first) + done_of(views(self.tasks@).take(i + 1)));
            }
            i = i + 1;
        }
        proof {
            let s = views(self.tasks@);
            assert(s.take(i as int) =~= s);
            lemma_pending_members(s);
            lemma_done_members(s);
            let p = pending_of(s);
            let d = done_of(s);
            assert forall|a: int, b: int|
                0 <= a < b < ordered@.len() && (#[trigger] ordered@[a]).complete implies (
                #[trigger] ordered@[b]).complete by {
                let vo = views(ordered@);
                assert(vo == p + d);
                assert(vo[a] == ordered@[a]@);
                assert(vo[b] == ordered@[b]@);
                if b < p.len() {
                    assert(vo[a] == p[a]);
                    assert(p.contains(p[a]));
                    assert(!p[a].1);
                } else {
                    assert(vo[b] == d[b - p.len()]);
                    assert(d.contains(d[b - p.len()]));
                    assert(d[b - p.len()].1);
                }
            }
            assert forall|v: TaskView| #[trigger] (p + d).contains(v) <==> s.contains(v) by {
                if (p + d).contains(v) {
                    let k = choose|k: int| 0 <= k < (p + d).len() && (p + d)[k] == v;
                    if k < p.len() {
                        assert(p.contains(p[k]));
                    } else {
                        assert(d.contains(d[k - p.len()]));
                    }
                }
                if s.contains(v) {
                    if v.1 {
                        assert(d.contains(v));
                        let k = choose|k: int| 0 <= k < d.len() && d[k] == v;
                        assert((p + d)[p.len() + k] == v);
                    } else {
                        assert(p.contains(v));
                        let k = choose|k: int| 0 <= k < p.len() && p[k] == v;
                        assert((p + d)[k] == v);
                    }
                }
            }
            assert(views(ordered@).to_set() =~= self@);
        }
        ordered
    }

    /// Takes the result of a load: on success it becomes the task set; on a
    /// failure the set is left as it was.
    pub fn adopt_loaded(&mut self, loaded: Result<Vec<Task>, StorageError>)
        ensures
            loaded is Ok ==> final(self).tasks@ == loaded->Ok_0@,
            loaded is Err ==> final(self).tasks@ == old(self).tasks@,
            final(self).db == old(self).db,
    {
        if let Ok(tasks) = loaded {
            self.tasks = tasks;
        }
    }

    /// Loads the tasks saved in the store; a failed load leaves the set as it was.
    pub fn load_persisted_tasks(&mut self)
        ensures
            final(self).tasks@ == old(self).tasks@ || final(self).wf(),
            old(self).wf() ==> final(self).wf(),
            final(self).db == old(self).db,
    {
        let loaded = self.db.load_tasks();
        self.adopt_loaded(loaded);
    }

    /// Saves a single task, replacing the stored one with the same details.
    pub fn _save_task(&mut self, task: &Task) -> (r: Result<(), StorageError>)
        ensures
            final(self).tasks@ == old(self).tasks@,
            r is Ok ==> final(self).db.log() == old(self).db.log().push(
                StoreOp::Upsert(task.details@, task.complete),
            ),
            r is Err ==> final(self).db.log() == old(self).db.log(),
            r is Err ==> r == Err::<(), StorageError>(StorageError::Write),
    {
        self.db.insert_task(task)
    }

    /// Saves every task of the set in one transaction: BEGIN, one upsert per
    /// task, COMMIT. The set itself is left as it is, whatever the store answers.
    pub fn save_all_tasks(&mut self) -> (r: Result<(), StorageError>)
        ensures
            final(self).tasks@ == old(self).tasks@,
            r is Ok ==> final(self).db.log() == old(self).db.log() + flush_batch(
                views(old(self).tasks@),
            ),
            r is Err ==> r == Err::<(), StorageError>(StorageError::Write),
            r is Err ==> exists|k: int|
                0 <= k <= old(self).tasks@.len() && failed_batch(
                    old(self).db.log(),
                    final(self).db.log(),
                    upsert_ops(views(old(self).tasks@).take(k)),
                ),
    {
        self.db.insert_tasks(&self.tasks)
    }
}

} // verus!
