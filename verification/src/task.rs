use vstd::prelude::*;

use crate::timestamp::Timestamp;

verus! {

/// One persisted work-log entry.
pub struct Task {
    pub id: String,
    pub created_at: Timestamp,
    pub task_description: String,
}

/// The mathematical shape of a task: its texts as character sequences.
pub struct TaskView {
    pub id: Seq<char>,
    pub created_at: Timestamp,
    pub task_description: Seq<char>,
}

impl View for Task {
    type V = TaskView;

    open spec fn view(&self) -> TaskView {
        TaskView {
            id: self.id@,
            created_at: self.created_at,
            task_description: self.task_description@,
        }
    }
}

impl TaskView {
    pub open spec fn wf(self) -> bool {
        self.created_at.wf()
    }
}

} // verus!
