//! A single task record and its lifecycle status.

use crate::text::{decimal, push_decimal};
use vstd::prelude::*;

verus! {

/// Lifecycle status of a task. Any status may be overwritten by any other.
#[derive(Clone, Copy, Debug, PartialEq, Eq, Structural)]
pub enum TaskStatus {
    Pending,
    Completed,
    Deleted,
}

/// Mathematical model of a task: its identifier, its two texts as sequences
/// of characters, and its status.
pub struct TaskView {
    pub id: u32,
    pub title: Seq<char>,
    pub description: Seq<char>,
    pub status: TaskStatus,
}

/// One tracked item of work.
#[derive(Debug)]
pub struct Task {
    id: u32,
    title: String,
    description: String,
    status: TaskStatus,
}

impl View for Task {
    type V = TaskView;

    closed spec fn view(&self) -> TaskView {
        TaskView {
            id: self.id,
            title: self.title@,
            description: self.description@,
            status: self.status,
        }
    }
}

impl TaskView {
    /// The same task with its status replaced.
    pub open spec fn with_status(self, status: TaskStatus) -> TaskView {
        TaskView { status, ..self }
    }

    /// The task in one line for a reader: identifier, title and status.
    pub open spec fn summary(self) -> Seq<char> {
        "ID: "@ + decimal(self.id as nat) + ", Title: "@ + self.title + ", Status: "@
            + self.status.token()
    }
}

impl TaskStatus {
    /// The word that stands for the status in the text format.
    pub open spec fn token(self) -> Seq<char> {
        match self {
            TaskStatus::Pending => "Pending"@,
            TaskStatus::Completed => "Completed"@,
            TaskStatus::Deleted => "Deleted"@,
        }
    }

    /// The word that stands for the status in the text format.
    pub fn as_str(&self) -> (word: &'static str)
        ensures
            word@ == self.token(),
    {
        match self {
            TaskStatus::Pending => "Pending",
            TaskStatus::Completed => "Completed",
            TaskStatus::Deleted => "Deleted",
        }
    }
}

impl Clone for Task {
    fn clone(&self) -> (copy: Task)
        ensures
            copy@ == self@,
    {
        Task {
            id: self.id,
            title: self.title.clone(),
            description: self.description.clone(),
            status: self.status,
        }
    }
}

impl Task {
    /// Creates a pending task. Texts are taken as they are; empty ones are allowed.
    pub fn new(id: u32, title: String, description: String) -> (task: Task)
        ensures
            task@ == (TaskView {
                id,
                title: title@,
                description: description@,
                status: TaskStatus::Pending,
            }),
    {
        Task { id, title, description, status: TaskStatus::Pending }
    }

    /// Sets the status to `Completed`, whatever it was.
    pub fn mark_completed(&mut self)
        ensures
            final(self)@ == old(self)@.with_status(TaskStatus::Completed),
    {
        self.status = TaskStatus::Completed;
    }

    /// Sets the status to `Deleted`, whatever it was. The record itself stays.
    pub fn mark_deleted(&mut self)
        ensures
            final(self)@ == old(self)@.with_status(TaskStatus::Deleted),
    {
        self.status = TaskStatus::Deleted;
    }

    /// The identifier, which never changes.
    pub fn id(&self) -> (id: u32)
        ensures
            id == self@.id,
    {
        self.id
    }

    /// The title as it was given.
    pub fn title(&self) -> (title: &str)
        ensures
            title@ == self@.title,
    {
        self.title.as_str()
    }

    /// The description as it was given.
    pub fn description(&self) -> (description: &str)
        ensures
            description@ == self@.description,
    {
        self.description.as_str()
    }

    /// The current status.
    pub fn status(&self) -> (status: TaskStatus)
        ensures
            status == self@.status,
    {
        self.status
    }

    /// The task in one line for a reader: identifier, title and status.
    pub fn summary(&self) -> (line: String)
        ensures
            line@ == self@.summary(),
    {
        let mut line = String::from_str("ID: ");
        push_decimal(&mut line, self.id);
        line.append(", Title: ");
        line.append(self.title.as_str());
        line.append(", Status: ");
        line.append(self.status.as_str());
        assert(line@ =~= self@.summary());
        line
    }
}

} // verus!
