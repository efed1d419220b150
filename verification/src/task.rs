//! The task record: a title, a free-form body and an urgency level.

use vstd::prelude::*;

verus! {

/// Priority tier of a task, totally ordered `Low < Medium < High`.
#[derive(Clone, Copy, PartialEq, Eq, Structural, Debug)]
pub enum Urgency {
    Low,
    Medium,
    High,
}

/// One to-do entry: the title is the lookup key for removal, the content is
/// free-form text, the urgency picks the display color.
#[derive(Clone, Debug)]
pub struct Task {
    pub title: String,
    pub content: String,
    pub urgency: Urgency,
}

/// Mathematical model of a [`Task`]: both text fields as character sequences.
#[verifier::ext_equal]
pub ghost struct TaskView {
    pub title: Seq<char>,
    pub content: Seq<char>,
    pub urgency: Urgency,
}

impl View for Task {
    type V = TaskView;

    open spec fn view(&self) -> TaskView {
        TaskView { title: self.title@, content: self.content@, urgency: self.urgency }
    }
}

/// The views of a sequence of tasks, in order.
pub open spec fn views_of(ts: Seq<Task>) -> Seq<TaskView> {
    ts.map_values(|t: Task| t@)
}

impl Task {
    /// Builds a task from its three fields.
    pub fn new(title: String, content: String, urgency: Urgency) -> (r: Task)
        ensures
            r@ == (TaskView { title: title@, content: content@, urgency }),
    {
        Task { title, content, urgency }
    }
}

} // verus!
