use crate::task::Task;
use vstd::prelude::*;

verus! {

pub const ADD_STR: &'static str = "📝 Add New Task";

pub const CLEAR_STR: &'static str = "❌ Clear Finished Tasks";

pub const QUIT_STR: &'static str = "👋 Quit";

pub const COMPLETE_MARKER: &'static str = "✅";

pub const INCOMPLETE_MARKER: &'static str = "⭕️";

/// One entry of the menu: a task, or one of the fixed actions.
#[derive(Clone, Debug)]
pub enum SelectionDisplay {
    Add,
    ExistingTask(Task),
    Clear,
    Quit,
}

/// The text shown for an entry.
pub open spec fn label_of(s: SelectionDisplay) -> Seq<char> {
    match s {
        SelectionDisplay::Add => ADD_STR@,
        SelectionDisplay::ExistingTask(t) => if t.complete {
            COMPLETE_MARKER@ + seq![' '] + t.details@
        } else {
            INCOMPLETE_MARKER@ + seq![' '] + t.details@
        },
        SelectionDisplay::Clear => CLEAR_STR@,
        SelectionDisplay::Quit => QUIT_STR@,
    }
}

impl SelectionDisplay {
    /// The text shown for this entry: a task shows its marker, a space and its details.
    pub fn label(&self) -> (r: String)
        ensures
            r@ == label_of(*self),
    {
        match self {
            SelectionDisplay::Add => ADD_STR.to_owned(),
            SelectionDisplay::ExistingTask(task) => {
                let marker = if task.complete {
                    COMPLETE_MARKER
                } else {
                    INCOMPLETE_MARKER
                };
                let mut text = marker.to_owned();
                text.append(" ");
                proof {
                    reveal_strlit(" ");
                    assert(" "@ =~= seq![' ']);
                }
                text.append(task.details.as_str());
                text
            },
            SelectionDisplay::Clear => CLEAR_STR.to_owned(),
            SelectionDisplay::Quit => QUIT_STR.to_owned(),
        }
    }
}

} // verus!
