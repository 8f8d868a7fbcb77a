//! A single-user task list: an in-memory set of tasks kept in step with a
//! sqlite table.
pub mod db;
pub mod query;
pub mod selection_display;
pub mod task;
pub mod task_manager;
pub mod utils;
