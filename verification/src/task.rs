//! The task data model and the parsed command-line actions.

use vstd::prelude::*;

verus! {

/// Mathematical view of a task: the title's characters and the flag.
pub ghost struct TaskView {
    pub title: Seq<char>,
    pub is_done: bool,
}

/// A task: a title plus a completion flag.  The flag starts false and is
/// only ever raised by a mark operation.
#[derive(Debug)]
pub struct Task {
    /// Title of the task.
    pub title: String,
    /// Whether the task has been marked as done.
    pub is_done: bool,
}

impl View for Task {
    type V = TaskView;

    open spec fn view(&self) -> TaskView {
        TaskView { title: self.title@, is_done: self.is_done }
    }
}

impl Task {
    /// Builds a task with the given title and flag.
    pub fn new(title: String, is_done: bool) -> (t: Task)
        ensures
            t@.title == title@,
            t@.is_done == is_done,
    {
        Task { title, is_done }
    }
}

/// The views of a sequence of tasks.
pub open spec fn views_of(ts: Seq<Task>) -> Seq<TaskView> {
    ts.map_values(|t: Task| t@)
}

/// Options of a list action: which tasks to show and in which order.
#[derive(Debug)]
pub struct ListOptions {
    /// Show only tasks that are completed.
    pub completed: bool,
    /// Show only tasks that are not completed.
    pub pending: bool,
    /// Sort tasks by title.
    pub sort_by_title: bool,
    /// Reverse the order of tasks.
    pub reverse: bool,
}

/// A parsed action.
#[derive(Debug)]
pub enum ActionType {
    /// Add a new task.
    Add(Task),
    /// Mark the task with the matching title as done.
    Mark(Task),
    /// List the tasks.
    List(ListOptions),
    /// Delete all tasks.
    Reset,
}

/// The parsed command line: one action per invocation.
#[derive(Debug)]
pub struct RustodoArgs {
    pub action: ActionType,
}

} // verus!
