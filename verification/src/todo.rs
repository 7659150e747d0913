//! The todo-list data model: categories of tasks, each task with its goals
//! (a due date, a progress bar, or a dependency on another task).

use vstd::prelude::*;

verus! {

pub type TodoID = i64;

pub type TodoCategoryID = i64;

/// One task: its text, its position within its category, and its goals.
#[derive(Clone, Debug)]
pub struct Todo {
    pub content: String,
    pub order: usize,
    pub goals: Vec<TodoGoal>,
}

/// A calendar deadline attached to a task.
#[derive(Clone, Debug)]
pub struct DueDate {
    pub date: String,
}

/// How far along a task is, out of how much.
#[derive(Clone, Copy, Debug, PartialEq, Eq, Structural)]
pub struct Progress {
    pub progress: u64,
    pub max_progress: u64,
}

/// One goal of a task.
#[derive(Clone, Debug)]
pub enum TodoGoal {
    DueDate(DueDate),
    Progress(Progress),
    Dependency(TodoID),
}

/// A category: its name, its position in the sidebar, and its tasks.
#[derive(Clone, Debug)]
pub struct TodoCategory {
    pub name: String,
    pub order: usize,
    pub todos: Vec<(TodoID, Todo)>,
}

} // verus!
