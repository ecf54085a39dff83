//! The task entity: status, the task record itself, and its mathematical
//! model.

use vstd::prelude::*;

verus! {

/// Progress state of a task.
#[derive(Clone, Copy, Debug, PartialEq, Eq, Structural)]
pub enum TaskStatus {
    New,
    InProgress,
    Done,
}

/// Mathematical model of a task: the five attributes as plain values.
#[verifier::ext_equal]
pub struct TaskSpec {
    pub id: u64,
    pub description: Seq<char>,
    pub status: TaskStatus,
    pub created_at: u64,
    pub updated_at: u64,
}

/// One unit of work.  `id` is unique within a store and immutable after
/// creation; `created_at` is set once; `updated_at` moves forward on every
/// mutation.
#[derive(Debug)]
pub struct Task {
    pub id: u64,
    pub description: String,
    pub status: TaskStatus,
    pub created_at: u64,
    pub updated_at: u64,
}

impl View for Task {
    type V = TaskSpec;

    open spec fn view(&self) -> TaskSpec {
        TaskSpec {
            id: self.id,
            description: self.description@,
            status: self.status,
            created_at: self.created_at,
            updated_at: self.updated_at,
        }
    }
}

impl DeepView for Task {
    type V = TaskSpec;

    open spec fn deep_view(&self) -> TaskSpec {
        self.view()
    }
}

impl Clone for Task {
    fn clone(&self) -> (res: Self)
        ensures
            res@ == self@,
    {
        Task {
            id: self.id,
            description: self.description.clone(),
            status: self.status,
            created_at: self.created_at,
            updated_at: self.updated_at,
        }
    }
}

impl Task {
    /// Plain constructor: every attribute is supplied by the caller.
    pub fn new(
        id: u64,
        description: String,
        status: TaskStatus,
        created_at: u64,
        updated_at: u64,
    ) -> (t: Self)
        ensures
            t@ == (TaskSpec { id, description: description@, status, created_at, updated_at }),
    {
        Self { id, description, status, created_at, updated_at }
    }
}

} // verus!
