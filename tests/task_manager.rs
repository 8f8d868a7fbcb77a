use rust_todo::db::{DBHelper, StorageError};
use rust_todo::selection_display::SelectionDisplay;
use rust_todo::task::Task;
use rust_todo::task_manager::TaskManager;
use rust_todo::utils::{add_display_tasks, append_default_list_options};

/// A manager over an empty store of its own, held in memory.
fn fresh_manager() -> TaskManager {
    TaskManager::with_store(DBHelper::new(":memory:").unwrap())
}

#[test]
fn default_task_incomplete() {
    let task = Task::new("Test task");
    assert_eq!(task.complete, false);
}

#[test]
fn test_add_task() {
    let task = &Task::new("Test task");
    let mut task_manager = fresh_manager();
    task_manager.add_new_task("Test task");
    assert!(task_manager.tasks.len() == 1);
    let map_task = task_manager.tasks.iter().next().unwrap();
    assert_eq!(map_task, task);
}

#[test]
fn test_toggle_completion() {
    let task = &Task::new("Test task");
    let mut task_manager = fresh_manager();
    task_manager.add_new_task("Test task");
    assert!(task_manager.tasks.len() == 1);
    task_manager.toggle_completion(task);
    let map_task = task_manager.tasks.iter().next().unwrap();
    assert!(map_task.complete);
    task_manager.toggle_completion(&map_task.clone());
    let map_task = task_manager.tasks.iter().next().unwrap();
    assert!(!map_task.complete);
}

#[test]
fn test_completed_task_remove() {
    let complete_task = Task {
        complete: true,
        details: "Complete Task".to_string(),
    };
    let incomplete_task = &Task::new("Incomplete Task");
    let mut task_manager = fresh_manager();
    task_manager.tasks.push(complete_task);
    task_manager.tasks.push(incomplete_task.clone());
    task_manager.remove_completed_tasks().unwrap();
    assert!(task_manager.tasks.len() == 1);
    assert_eq!(task_manager.tasks.iter().next().unwrap(), incomplete_task);
}

#[test]
fn test_completed_tasks_ordered_last() {
    let mut task_manager = fresh_manager();
    let mut task1 = Task::new("task 1");
    task1.complete = true;
    let task2 = Task::new("task 2");
    let task3 = Task::new("task 3");
    task_manager.tasks.push(task1.clone());
    task_manager.tasks.push(task2);
    task_manager.tasks.push(task3);
    let ordered_task_vec = task_manager.get_ordered_tasks_list();
    assert_eq!(ordered_task_vec[ordered_task_vec.len() - 1], task1);
}

#[test]
fn test_single_insert() {
    let mut db = DBHelper::new(":memory:").unwrap();
    let task = Task::new("Test task");
    db.insert_task(&task).unwrap();
    let tasks = db.load_tasks().unwrap();
    assert_eq!(tasks.len(), 1);
    assert_eq!(tasks.iter().next().unwrap(), &task);
}

#[test]
fn scenario_add_toggle_purge() {
    let mut manager = fresh_manager();
    manager.add_new_task("Write tests");
    let view = manager.get_ordered_tasks_list();
    assert_eq!(view, vec![Task::new("Write tests")]);
    manager.toggle_completion(&Task::new("Write tests"));
    let view = manager.get_ordered_tasks_list();
    assert_eq!(view.len(), 1);
    assert_eq!(view[0].details, "Write tests");
    assert!(view[0].complete);
    manager.save_all_tasks().unwrap();
    manager.remove_completed_tasks().unwrap();
    assert!(manager.get_ordered_tasks_list().is_empty());
    assert_eq!(manager.db.load_tasks().unwrap().len(), 0);
}

#[test]
fn scenario_completed_task_last() {
    let mut manager = fresh_manager();
    manager.add_new_task("task 1");
    manager.toggle_completion(&Task::new("task 1"));
    manager.add_new_task("task 2");
    manager.add_new_task("task 3");
    let view = manager.get_ordered_tasks_list();
    assert_eq!(view.len(), 3);
    assert_eq!(view[2].details, "task 1");
    assert!(view[2].complete);
    assert!(!view[0].complete && !view[1].complete);
}

#[test]
fn scenario_duplicate_add_is_idempotent() {
    let mut manager = fresh_manager();
    manager.add_new_task("X");
    manager.add_new_task("X");
    assert_eq!(manager.tasks, vec![Task::new("X")]);
}

#[test]
fn scenario_open_unwritable_path_fails() {
    let r = DBHelper::new("/nonexistent_directory_for_tasks/tasks.db");
    assert!(matches!(r, Err(StorageError::Unavailable)));
}

#[test]
fn scenario_flush_fault_leaves_set_unchanged() {
    let mut manager = fresh_manager();
    manager.add_new_task("a");
    manager.add_new_task("b");
    let before = manager.tasks.clone();
    // Dropping the table makes every write of the flush fail.
    manager.db._reset_db().unwrap();
    assert_eq!(manager.save_all_tasks(), Err(StorageError::Write));
    assert_eq!(manager.tasks, before);
}

#[test]
fn new_task_is_pending_after_add() {
    let mut manager = fresh_manager();
    manager.add_new_task("Read a book");
    assert!(manager.tasks.contains(&Task::new("Read a book")));
}

#[test]
fn toggle_twice_restores_task() {
    let mut manager = fresh_manager();
    manager.add_new_task("a");
    manager.add_new_task("b");
    manager.toggle_completion(&Task::new("a"));
    let done = Task { complete: true, details: "a".to_string() };
    assert!(manager.tasks.contains(&done));
    manager.toggle_completion(&done);
    let mut got = manager.tasks.clone();
    got.sort_by(|x, y| x.details.cmp(&y.details));
    assert_eq!(got, vec![Task::new("a"), Task::new("b")]);
}

#[test]
fn toggle_of_missing_task_is_no_op() {
    let mut manager = fresh_manager();
    manager.add_new_task("a");
    manager.toggle_completion(&Task::new("zzz"));
    assert_eq!(manager.tasks, vec![Task::new("a")]);
}

#[test]
fn purge_keeps_only_incomplete_and_clears_store() {
    let mut manager = fresh_manager();
    for d in ["a", "b", "c", "d"] {
        manager.add_new_task(d);
    }
    manager.toggle_completion(&Task::new("b"));
    manager.toggle_completion(&Task::new("d"));
    manager.save_all_tasks().unwrap();
    manager.remove_completed_tasks().unwrap();
    assert_eq!(manager.tasks, vec![Task::new("a"), Task::new("c")]);
    let stored = manager.db.load_tasks().unwrap();
    assert_eq!(stored.len(), 2);
    assert!(stored.iter().all(|t| !t.complete));
}

#[test]
fn ordering_puts_all_incomplete_first() {
    let mut manager = fresh_manager();
    for d in ["a", "b", "c", "d", "e"] {
        manager.add_new_task(d);
    }
    manager.toggle_completion(&Task::new("a"));
    manager.toggle_completion(&Task::new("c"));
    let view = manager.get_ordered_tasks_list();
    let flags: Vec<bool> = view.iter().map(|t| t.complete).collect();
    assert_eq!(flags, vec![false, false, false, true, true]);
}

#[test]
fn flush_then_load_round_trips() {
    let mut manager = fresh_manager();
    for d in ["a", "it's \"quoted\"", "c"] {
        manager.add_new_task(d);
    }
    manager.toggle_completion(&Task::new("c"));
    manager.save_all_tasks().unwrap();
    let mut want = manager.tasks.clone();
    let mut fresh = TaskManager::with_store(manager.db);
    fresh.load_persisted_tasks();
    let mut got = fresh.tasks.clone();
    want.sort_by(|x, y| x.details.cmp(&y.details));
    got.sort_by(|x, y| x.details.cmp(&y.details));
    assert_eq!(got, want);
}

#[test]
fn failed_load_keeps_tasks() {
    let mut manager = fresh_manager();
    manager.add_new_task("kept");
    manager.db._reset_db().unwrap();
    manager.load_persisted_tasks();
    assert_eq!(manager.tasks, vec![Task::new("kept")]);
}

#[test]
fn stored_flag_decodes_only_one_as_complete() {
    let mut db = DBHelper::new(":memory:").unwrap();
    db.insert_task(&Task { complete: true, details: "done".to_string() }).unwrap();
    db.insert_task(&Task::new("open")).unwrap();
    db.insert_task(&Task::new("done")).unwrap();
    let tasks = db.load_tasks().unwrap();
    assert_eq!(tasks.len(), 2);
    assert!(tasks.iter().all(|t| !t.complete));
    db._delete_task(&Task::new("open")).unwrap();
    assert_eq!(db.load_tasks().unwrap(), vec![Task::new("done")]);
    db._delete_tasks(&vec![Task::new("done")]).unwrap();
    assert!(db.load_tasks().unwrap().is_empty());
}

#[test]
fn display_list_has_tasks_then_fixed_entries() {
    let mut manager = fresh_manager();
    manager.add_new_task("a");
    manager.toggle_completion(&Task::new("a"));
    manager.add_new_task("b");
    let mut list: Vec<SelectionDisplay> = vec![];
    add_display_tasks(&manager, &mut list);
    append_default_list_options(&mut list);
    let labels: Vec<String> = list.iter().map(|e| e.label()).collect();
    assert_eq!(
        labels,
        vec![
            "⭕️ b".to_string(),
            "✅ a".to_string(),
            "📝 Add New Task".to_string(),
            "❌ Clear Finished Tasks".to_string(),
            "👋 Quit".to_string(),
        ]
    );
}

#[test]
fn encode_and_decode_flags() {
    assert_eq!(rust_todo::db::encode_complete(true), 1);
    assert_eq!(rust_todo::db::encode_complete(false), 0);
    assert!(rust_todo::db::task_from_row("x".to_string(), 1).complete);
    assert!(!rust_todo::db::task_from_row("x".to_string(), 2).complete);
}

#[test]
fn add_replaces_task_with_same_details() {
    let mut manager = fresh_manager();
    manager.add_new_task("X");
    manager.toggle_completion(&Task::new("X"));
    manager.add_new_task("X");
    assert_eq!(manager.tasks, vec![Task::new("X")]);
}

#[test]
fn load_keeps_details_unique() {
    let mut db = DBHelper::new(":memory:").unwrap();
    db.insert_task(&Task::new("a")).unwrap();
    db.insert_task(&Task { complete: true, details: "a".to_string() }).unwrap();
    assert_eq!(
        db.load_tasks().unwrap(),
        vec![Task { complete: true, details: "a".to_string() }]
    );
}

#[test]
fn rows_make_tasks_with_last_row_winning() {
    let rows = vec![
        ("a".to_string(), 1),
        ("b".to_string(), 0),
        ("a".to_string(), 0),
        ("c".to_string(), 2),
    ];
    let mut tasks = rust_todo::db::tasks_from_rows(&rows);
    tasks.sort_by(|x, y| x.details.cmp(&y.details));
    assert_eq!(tasks, vec![Task::new("a"), Task::new("b"), Task::new("c")]);
}

#[test]
fn rows_flag_one_is_complete() {
    let rows = vec![("done".to_string(), 1)];
    let tasks = rust_todo::db::tasks_from_rows(&rows);
    assert_eq!(tasks, vec![Task { complete: true, details: "done".to_string() }]);
}
