use rust_todo::selection_display::{
    SelectionDisplay, ADD_STR, CLEAR_STR, COMPLETE_MARKER, INCOMPLETE_MARKER, QUIT_STR,
};
use rust_todo::task::Task;

#[test]
fn test_selection_display_add() {
    let selection = SelectionDisplay::Add;
    assert_eq!(selection.label(), ADD_STR);
}

#[test]
fn test_selection_display_existing_task_complete() {
    let task_details = "Write tests";
    let task = Task {
        details: String::from(task_details),
        complete: true,
    };
    let selection = SelectionDisplay::ExistingTask(task);
    assert_eq!(
        selection.label(),
        format!("{} {}", COMPLETE_MARKER, task_details)
    );
}

#[test]
fn test_selection_display_existing_task_incomplete() {
    let task_details = "Add new features";
    let task = Task {
        details: String::from(task_details),
        complete: false,
    };
    let selection = SelectionDisplay::ExistingTask(task);
    assert_eq!(
        selection.label(),
        format!("{} {}", INCOMPLETE_MARKER, task_details)
    );
}

#[test]
fn test_selection_display_clear() {
    let selection = SelectionDisplay::Clear;
    assert_eq!(selection.label(), CLEAR_STR);
}

#[test]
fn test_selection_display_quit() {
    let selection = SelectionDisplay::Quit;
    assert_eq!(selection.label(), QUIT_STR);
}

#[test]
fn label_of_task_is_marker_space_details() {
    let selection = SelectionDisplay::ExistingTask(Task::new("Buy milk"));
    assert_eq!(selection.label(), "⭕️ Buy milk");
}
