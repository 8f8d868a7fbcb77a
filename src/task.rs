use vstd::prelude::*;

verus! {

/// The abstract value of a task: its details and its completion flag.
pub type TaskView = (Seq<char>, bool);

/// A to-do item, identified by its whole value.
#[derive(Clone, Hash, PartialEq, Eq, Debug)]
pub struct Task {
    pub complete: bool,
    pub details: String,
}

impl View for Task {
    type V = TaskView;

    open spec fn view(&self) -> TaskView {
        (self.details@, self.complete)
    }
}

/// The values of a sequence of tasks.
pub open spec fn views(s: Seq<Task>) -> Seq<TaskView> {
    s.map_values(|t: Task| t@)
}

/// The pending (not complete) tasks of `s`, in their order.
pub open spec fn pending_of(s: Seq<TaskView>) -> Seq<TaskView>
    decreases s.len(),
{
    if s.len() == 0 {
        Seq::empty()
    } else if !s.last().1 {
        pending_of(s.drop_last()).push(s.last())
    } else {
        pending_of(s.drop_last())
    }
}

/// The completed tasks of `s`, in their order.
pub open spec fn done_of(s: Seq<TaskView>) -> Seq<TaskView>
    decreases s.len(),
{
    if s.len() == 0 {
        Seq::empty()
    } else if s.last().1 {
        done_of(s.drop_last()).push(s.last())
    } else {
        done_of(s.drop_last())
    }
}

/// A value is among the pending ones exactly when it is in `s` and not complete.
pub proof fn lemma_pending_members(s: Seq<TaskView>)
    ensures
        forall|v: TaskView| #[trigger] pending_of(s).contains(v) <==> (s.contains(v) && !v.1),
    decreases s.len(),
{
    if s.len() > 0 {
        lemma_pending_members(s.drop_last());
        assert forall|v: TaskView| pending_of(s).contains(v) <==> (s.contains(v) && !v.1) by {
            let p = pending_of(s.drop_last());
            if !s.last().1 {
                assert(pending_of(s) == p.push(s.last()));
                if pending_of(s).contains(v) {
                    let k = choose|k: int| 0 <= k < pending_of(s).len() && pending_of(s)[k] == v;
                    if k < p.len() {
                        assert(p[k] == v);
                    }
                }
                if p.contains(v) {
                    let k = choose|k: int| 0 <= k < p.len() && p[k] == v;
                    assert(pending_of(s)[k] == v);
                }
                if v == s.last() {
                    assert(pending_of(s)[p.len() as int] == v);
                }
            }
            if s.contains(v) {
                let i = choose|i: int| 0 <= i < s.len() && s[i] == v;
                if i < s.len() - 1 {
                    assert(s.drop_last()[i] == v);
                }
            }
            if s.drop_last().contains(v) {
                let i = choose|i: int| 0 <= i < s.len() - 1 && s.drop_last()[i] == v;
                assert(s[i] == v);
            }
        }
    }
}

/// A value is among the completed ones exactly when it is in `s` and complete.
pub proof fn lemma_done_members(s: Seq<TaskView>)
    ensures
        forall|v: TaskView| #[trigger] done_of(s).contains(v) <==> (s.contains(v) && v.1),
    decreases s.len(),
{
    if s.len() > 0 {
        lemma_done_members(s.drop_last());
        assert forall|v: TaskView| done_of(s).contains(v) <==> (s.contains(v) && v.1) by {
            let p = done_of(s.drop_last());
            if s.last().1 {
                assert(done_of(s) == p.push(s.last()));
                if done_of(s).contains(v) {
                    let k = choose|k: int| 0 <= k < done_of(s).len() && done_of(s)[k] == v;
                    if k < p.len() {
                        assert(p[k] == v);
                    }
                }
                if p.contains(v) {
                    let k = choose|k: int| 0 <= k < p.len() && p[k] == v;
                    assert(done_of(s)[k] == v);
                }
                if v == s.last() {
                    assert(done_of(s)[p.len() as int] == v);
                }
            }
            if s.contains(v) {
                let i = choose|i: int| 0 <= i < s.len() && s[i] == v;
                if i < s.len() - 1 {
                    assert(s.drop_last()[i] == v);
                }
            }
            if s.drop_last().contains(v) {
                let i = choose|i: int| 0 <= i < s.len() - 1 && s.drop_last()[i] == v;
                assert(s[i] == v);
            }
        }
    }
}

/// Membership in a sequence after one push.
pub proof fn lemma_push_contains<A>(s: Seq<A>, x: A)
    ensures
        forall|v: A| #[trigger] s.push(x).contains(v) <==> (s.contains(v) || v == x),
{
    assert forall|v: A| #[trigger] s.push(x).contains(v) <==> (s.contains(v) || v == x) by {
        if s.contains(v) {
            let k = choose|k: int| 0 <= k < s.len() && s[k] == v;
            assert(s.push(x)[k] == v);
        }
        if v == x {
            assert(s.push(x)[s.len() as int] == v);
        }
        if s.push(x).contains(v) {
            let k = choose|k: int| 0 <= k < s.push(x).len() && s.push(x)[k] == v;
            if k < s.len() {
                assert(s[k] == v);
            }
        }
    }
}

/// No two values of `s` share their details.
pub open spec fn unique_details(s: Seq<TaskView>) -> bool {
    forall|i: int, j: int|
        0 <= i < s.len() && 0 <= j < s.len() && i != j ==> (#[trigger] s[i]).0 != (
        #[trigger] s[j]).0
}

/// Pushing a value whose details are not there keeps the details unique.
pub proof fn lemma_push_unique_details(s: Seq<TaskView>, x: TaskView)
    requires
        unique_details(s),
        forall|k: int| 0 <= k < s.len() ==> (#[trigger] s[k]).0 != x.0,
    ensures
        unique_details(s.push(x)),
{
    assert forall|i: int, j: int|
        0 <= i < s.push(x).len() && 0 <= j < s.push(x).len() && i != j implies (
        #[trigger] s.push(x)[i]).0 != (#[trigger] s.push(x)[j]).0 by {
        if i < s.len() {
            assert(s.push(x)[i] == s[i]);
        }
        if j < s.len() {
            assert(s.push(x)[j] == s[j]);
        }
    }
}

/// The pending tasks of a sequence with unique details have unique details too.
pub proof fn lemma_pending_unique_details(s: Seq<TaskView>)
    requires
        unique_details(s),
    ensures
        unique_details(pending_of(s)),
    decreases s.len(),
{
    if s.len() > 0 {
        let rest = s.drop_last();
        assert(unique_details(rest)) by {
            assert forall|i: int, j: int|
                0 <= i < rest.len() && 0 <= j < rest.len() && i != j implies (
                #[trigger] rest[i]).0 != (#[trigger] rest[j]).0 by {
                assert(rest[i] == s[i] && rest[j] == s[j]);
            }
        }
        lemma_pending_unique_details(rest);
        lemma_pending_members(rest);
        if !s.last().1 {
            let p = pending_of(rest);
            assert forall|k: int| 0 <= k < p.len() implies (#[trigger] p[k]).0 != s.last().0 by {
                assert(p.contains(p[k]));
                let m = choose|m: int| 0 <= m < rest.len() && rest[m] == p[k];
                assert(s[m] == rest[m]);
                assert(s[s.len() - 1] == s.last());
            }
            lemma_push_unique_details(p, s.last());
        }
    }
}

/// Puts `task` into `tasks`, first taking out every task with the same details:
/// the later value wins.
pub fn put_task(tasks: &mut Vec<Task>, task: Task)
    ensures
        forall|v: TaskView| #[trigger]
            views(final(tasks)@).contains(v) <==> ((views(old(tasks)@).contains(v) && v.0
                != task.details@) || v == task@),
        unique_details(views(old(tasks)@)) ==> unique_details(views(final(tasks)@)),
{
    let mut kept: Vec<Task> = Vec::new();
    let mut i: usize = 0;
    proof {
        assert(views(kept@) =~= Seq::<TaskView>::empty());
    }
    while i < tasks.len()
        invariant
            i <= tasks@.len(),
            tasks@ == old(tasks)@,
            forall|v: TaskView| #[trigger]
                views(kept@).contains(v) <==> (views(tasks@).take(i as int).contains(v) && v.0
                    != task.details@),
            unique_details(views(tasks@)) ==> unique_details(views(kept@)),
        decreases tasks@.len() - i,
    {
        let ghost before = kept@;
        let ghost s = views(tasks@);
        proof {
            assert(s.take(i + 1) =~= s.take(i as int).push(s[i as int]));
            lemma_push_contains(s.take(i as int), s[i as int]);
        }
        if tasks[i].details != task.details {
            kept.push(tasks[i].duplicate());
            proof {
                let x = s[i as int];
                assert(views(kept@) =~= views(before).push(x));
                lemma_push_contains(views(before), x);
                if unique_details(s) {
                    let kb = views(before);
                    assert forall|k: int| 0 <= k < kb.len() implies (#[trigger] kb[k]).0 != x.0 by {
                        assert(kb.contains(kb[k]));
                        let m = choose|m: int| 0 <= m < i && s.take(i as int)[m] == kb[k];
                        assert(s[m] == kb[k]);
                    }
                    lemma_push_unique_details(kb, x);
                }
            }
        }
        i = i + 1;
    }
    let ghost kv = views(kept@);
    proof {
        assert(views(tasks@).take(i as int) =~= views(tasks@));
        assert forall|k: int| 0 <= k < kv.len() implies (#[trigger] kv[k]).0 != task.details@ by {
            assert(kv.contains(kv[k]));
        }
    }
    kept.push(task);
    proof {
        assert(views(kept@) =~= kv.push(task@));
        lemma_push_contains(kv, task@);
        if unique_details(views(tasks@)) {
            lemma_push_unique_details(kv, task@);
        }
    }
    *tasks = kept;
}

impl Task {
    /// A new task with the given details, not yet complete.
    pub fn new(details: &str) -> (r: Task)
        ensures
            r@ == (details@, false),
    {
        Task { complete: false, details: details.to_owned() }
    }

    /// Whether two tasks have the same value.
    pub fn same_value(&self, other: &Task) -> (r: bool)
        ensures
            r == (self@ == other@),
    {
        self.complete == other.complete && self.details == other.details
    }

    /// A second, equal task with its own details string.
    pub fn duplicate(&self) -> (r: Task)
        ensures
            r == *self,
    {
        Task { complete: self.complete, details: self.details.clone() }
    }

    /// The same task with its completion flag inverted.
    pub fn toggled(&self) -> (r: Task)
        ensures
            r@ == (self.details@, !self.complete),
    {
        Task { complete: !self.complete, details: self.details.clone() }
    }
}

} // verus!
