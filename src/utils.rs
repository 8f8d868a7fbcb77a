use crate::selection_display::SelectionDisplay;
use crate::task::{done_of, pending_of, views, TaskView};
use crate::task_manager::TaskManager;
use vstd::prelude::*;

verus! {

/// Whether `e` is the entry of a task with value `v`.
pub open spec fn shows_task(e: SelectionDisplay, v: TaskView) -> bool {
    match e {
        SelectionDisplay::ExistingTask(t) => t@ == v,
        _ => false,
    }
}

/// Appends an entry for each task, in the order of the ordered task list.
pub fn add_display_tasks(manager: &TaskManager, list: &mut Vec<SelectionDisplay>)
    ensures
        ({
            let shown = pending_of(views(manager.tasks@)) + done_of(views(manager.tasks@));
            &&& final(list)@.len() == old(list)@.len() + shown.len()
            &&& forall|k: int| 0 <= k < old(list)@.len() ==> final(list)@[k] == old(list)@[k]
            &&& forall|k: int|
                0 <= k < shown.len() ==> shows_task(
                    #[trigger] final(list)@[old(list)@.len() + k],
                    shown[k],
                )
        }),
{
    let ordered = manager.get_ordered_tasks_list();
    let mut i: usize = 0;
    while i < ordered.len()
        invariant
            i <= ordered@.len(),
            list@.len() == old(list)@.len() + i,
            forall|k: int| 0 <= k < old(list)@.len() ==> list@[k] == old(list)@[k],
            forall|k: int|
                0 <= k < i ==> shows_task(#[trigger] list@[old(list)@.len() + k], ordered@[k]@),
        decreases ordered@.len() - i,
    {
        list.push(SelectionDisplay::ExistingTask(ordered[i].duplicate()));
        proof {
            assert(shows_task(list@[old(list)@.len() + i], ordered@[i as int]@));
        }
        i = i + 1;
    }
    proof {
        assert forall|k: int| 0 <= k < ordered@.len() implies views(ordered@)[k]
            == ordered@[k]@ by {}
    }
}

/// Appends the fixed entries after the tasks: add, clear, quit.
pub fn append_default_list_options(list: &mut Vec<SelectionDisplay>)
    ensures
        final(list)@ == old(list)@.push(SelectionDisplay::Add).push(SelectionDisplay::Clear).push(
            SelectionDisplay::Quit,
        ),
{
    list.push(SelectionDisplay::Add);
    list.push(SelectionDisplay::Clear);
    list.push(SelectionDisplay::Quit);
}

} // verus!
