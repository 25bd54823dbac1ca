//! The task store: tasks kept by increasing identifier, the identifier that
//! the next new task gets, and the name of the file that the store is kept
//! in. Reading and writing that file is left to the caller, who hands over
//! and receives its text.

use crate::model::{
    as_map, increasing, lemma_as_map, lemma_as_map_insert, lemma_as_map_remove,
    lemma_as_map_update, lemma_listing_of_increasing, StoreState, ID_LIMIT,
};
use crate::record::{parse_line, push_line, rendered};
use crate::task::{Task, TaskStatus, TaskView};
use crate::text::{
    chars_of, decimal, find_char, lemma_lines_of_from, lines_of, push_decimal, strip_cr,
};
use vstd::prelude::*;
use vstd::slice::slice_subrange;

verus! {

/// Why an operation left the store as it was.
#[derive(Clone, Copy, Debug, PartialEq, Eq, Structural)]
pub enum StoreError {
    /// The store holds no task with this identifier.
    NotFound { id: u32 },
}

impl StoreError {
    /// The report of the error in words.
    pub open spec fn message_text(self) -> Seq<char> {
        match self {
            StoreError::NotFound { id } => "Task with ID "@ + decimal(id as nat) + " not found."@,
        }
    }

    /// The report of the error in words.
    pub fn message(&self) -> (text: String)
        ensures
            text@ == self.message_text(),
    {
        match self {
            StoreError::NotFound { id } => {
                let mut text = String::from_str("Task with ID ");
                push_decimal(&mut text, *id);
                text.append(" not found.");
                text
            },
        }
    }
}

/// The models of the tasks of a sequence, in order.
pub open spec fn views(tasks: Seq<Task>) -> Seq<TaskView> {
    tasks.map_values(|task: Task| task@)
}

/// A store of tasks.
pub struct TaskManager {
    tasks: Vec<Task>,
    next_id: u64,
    filename: String,
}

impl View for TaskManager {
    type V = StoreState;

    closed spec fn view(&self) -> StoreState {
        StoreState {
            tasks: as_map(views(self.tasks@)),
            next_id: self.next_id as nat,
            path: self.filename@,
        }
    }
}

/// Looks for `id` among tasks that are kept by increasing identifier. Gives
/// whether it is there, and the position where it is or where it belongs.
fn locate(tasks: &Vec<Task>, id: u32) -> (r: (bool, usize))
    requires
        increasing(views(tasks@)),
    ensures
        r.1 <= tasks.len(),
        r.0 ==> r.1 < tasks.len() && views(tasks@)[r.1 as int].id == id,
        r.0 <==> as_map(views(tasks@)).contains_key(id),
        forall|j: int| 0 <= j < r.1 ==> views(tasks@)[j].id < id,
        forall|j: int| r.1 <= j < tasks.len() && !(r.0 && j == r.1) ==> id < views(tasks@)[j].id,
{
    let ghost all = views(tasks@);
    let mut low: usize = 0;
    let mut high: usize = tasks.len();
    while low < high
        invariant
            low <= high <= tasks.len(),
            all == views(tasks@),
            increasing(all),
            forall|j: int| 0 <= j < low ==> all[j].id < id,
            forall|j: int| high <= j < tasks.len() ==> id < all[j].id,
        decreases high - low,
    {
        let mid = low + (high - low) / 2;
        let found = tasks[mid].id();
        assert(found == all[mid as int].id);
        if found == id {
            proof {
                lemma_as_map(all);
            }
            return (true, mid);
        } else if found < id {
            low = mid + 1;
        } else {
            high = mid;
        }
    }
    proof {
        lemma_as_map(all);
        if as_map(all).contains_key(id) {
            let j = choose|j: int| 0 <= j < all.len() && (#[trigger] all[j]).id == id;
            assert(false);
        }
    }
    (false, low)
}

impl TaskManager {
    #[verifier::type_invariant]
    spec fn inv(&self) -> bool {
        &&& increasing(views(self.tasks@))
        &&& 1 <= self.next_id <= ID_LIMIT
        &&& forall|i: int| 0 <= i < self.tasks.len() ==> (#[trigger] self.tasks[i])@.id < self.next_id
    }

    /// What the hidden invariant means for the model.
    proof fn lemma_view_wf(&self)
        requires
            self.inv(),
        ensures
            self@.wf(),
    {
        let all = views(self.tasks@);
        lemma_as_map(all);
        assert forall|id: u32| #[trigger] self@.tasks.contains_key(id) implies self@.tasks[id].id
            == id && id < self@.next_id by {
            let i = choose|i: int| 0 <= i < all.len() && (#[trigger] all[i]).id == id;
            assert(all[i] == self.tasks[i]@);
        }
    }

    /// An empty store that is kept in the file `filename`. Nothing is read:
    /// hand the file's text to `load_from_str`.
    pub fn new(filename: String) -> (store: TaskManager)
        ensures
            store@ == StoreState::empty(filename@),
    {
        TaskManager { tasks: Vec::new(), next_id: 1, filename }
    }

    /// The name of the file that the store is kept in.
    pub fn filename(&self) -> (name: &str)
        ensures
            name@ == self@.path,
    {
        self.filename.as_str()
    }

    /// The identifier that the next new task gets. It is above the
    /// identifier of every task in the store.
    pub fn next_id(&self) -> (next: u64)
        ensures
            next == self@.next_id,
            self@.wf(),
    {
        proof {
            use_type_invariant(self);
            self.lemma_view_wf();
        }
        self.next_id
    }

    /// Creates a pending task from the two texts, which are taken as they
    /// are, and gives the identifier it got: the next one, which no task of
    /// this store has had before.
    pub fn add_task(&mut self, title: String, description: String) -> (id: u32)
        requires
            old(self)@.has_free_id(),
        ensures
            id == old(self)@.next_id,
            final(self)@ == old(self)@.created(title@, description@),
            final(self)@.wf(),
    {
        proof {
            use_type_invariant(&*self);
        }
        let id = self.next_id as u32;
        let task = Task::new(id, title, description);
        let mut tasks: Vec<Task> = Vec::new();
        std::mem::swap(&mut tasks, &mut self.tasks);
        let ghost before = views(tasks@);
        tasks.push(task);
        proof {
            assert(views(tasks@) =~= before.push(task@));
            assert(views(tasks@).drop_last() =~= before);
            assert forall|i: int, j: int| 0 <= i < j < tasks.len() implies views(tasks@)[i].id
                < views(tasks@)[j].id by {
                if j < before.len() {
                    assert(views(tasks@)[i] == before[i] && views(tasks@)[j] == before[j]);
                } else {
                    assert(views(tasks@)[i] == old(self).tasks[i]@);
                }
            }
        }
        self.next_id = self.next_id + 1;
        self.tasks = tasks;
        proof {
            self.lemma_view_wf();
        }
        id
    }

    /// All tasks of the store, by increasing identifier. Tasks marked as
    /// deleted are among them.
    pub fn list_tasks(&self) -> (all: Vec<Task>)
        ensures
            views(all@) == self@.listing(),
    {
        proof {
            use_type_invariant(self);
            lemma_listing_of_increasing(views(self.tasks@));
        }
        let mut all: Vec<Task> = Vec::new();
        let mut i: usize = 0;
        while i < self.tasks.len()
            invariant
                i <= self.tasks.len(),
                views(all@) == views(self.tasks@).take(i as int),
            decreases self.tasks.len() - i,
        {
            let task = self.tasks[i].clone();
            let ghost before = views(all@);
            all.push(task);
            assert(views(all@) =~= before.push(task@));
            assert(views(self.tasks@).take(i + 1) =~= before.push(views(self.tasks@)[i as int]));
            i += 1;
        }
        assert(views(self.tasks@).take(i as int) =~= views(self.tasks@));
        all
    }

    /// Gives the task `id` the status `status`, which is not `Pending`.
    fn mark(&mut self, id: u32, status: TaskStatus) -> (r: Result<(), StoreError>)
        requires
            status != TaskStatus::Pending,
        ensures
            final(self)@ == old(self)@.marked(id, status),
            final(self)@.wf(),
            r == if old(self)@.tasks.contains_key(id) {
                Ok::<(), StoreError>(())
            } else {
                Err::<(), StoreError>(StoreError::NotFound { id })
            },
    {
        proof {
            use_type_invariant(&*self);
            self.lemma_view_wf();
        }
        let (found, i) = locate(&self.tasks, id);
        if !found {
            return Err(StoreError::NotFound { id });
        }
        let mut tasks: Vec<Task> = Vec::new();
        std::mem::swap(&mut tasks, &mut self.tasks);
        let ghost before = views(tasks@);
        match status {
            TaskStatus::Completed => tasks[i].mark_completed(),
            TaskStatus::Deleted => tasks[i].mark_deleted(),
            TaskStatus::Pending => {},
        }
        proof {
            let task = tasks[i as int];
            assert(task@ == before[i as int].with_status(status));
            assert(views(tasks@) =~= before.update(i as int, task@));
            lemma_as_map_update(before, i as int, task@);
            lemma_as_map(before);
            assert(as_map(before)[before[i as int].id] == before[i as int]);
            assert forall|j: int| 0 <= j < tasks.len() implies (#[trigger] tasks[j])@.id
                < self.next_id by {
                assert(tasks[j]@ == views(tasks@)[j]);
                assert(old(self).tasks[j]@.id < self.next_id);
            }
        }
        self.tasks = tasks;
        proof {
            self.lemma_view_wf();
        }
        Ok(())
    }

    /// Marks the task `id` as completed, whatever its status was. Where the
    /// store has no such task it stays as it is.
    pub fn mark_completed(&mut self, id: u32) -> (r: Result<(), StoreError>)
        ensures
            final(self)@ == old(self)@.marked(id, TaskStatus::Completed),
            final(self)@.wf(),
            r == if old(self)@.tasks.contains_key(id) {
                Ok::<(), StoreError>(())
            } else {
                Err::<(), StoreError>(StoreError::NotFound { id })
            },
    {
        self.mark(id, TaskStatus::Completed)
    }

    /// Marks the task `id` as deleted, whatever its status was. The task
    /// stays in the store. Where the store has no such task it stays as it
    /// is.
    pub fn mark_deleted(&mut self, id: u32) -> (r: Result<(), StoreError>)
        ensures
            final(self)@ == old(self)@.marked(id, TaskStatus::Deleted),
            final(self)@.wf(),
            r == if old(self)@.tasks.contains_key(id) {
                Ok::<(), StoreError>(())
            } else {
                Err::<(), StoreError>(StoreError::NotFound { id })
            },
    {
        self.mark(id, TaskStatus::Deleted)
    }

    /// Takes the task `id` out of the store for good. Its identifier is not
    /// handed out again. Where the store has no such task it stays as it is.
    pub fn delete_task(&mut self, id: u32) -> (r: Result<(), StoreError>)
        ensures
            final(self)@ == old(self)@.without(id),
            !old(self)@.tasks.contains_key(id) ==> final(self)@ == old(self)@,
            final(self)@.wf(),
            r == if old(self)@.tasks.contains_key(id) {
                Ok::<(), StoreError>(())
            } else {
                Err::<(), StoreError>(StoreError::NotFound { id })
            },
    {
        proof {
            use_type_invariant(&*self);
            self.lemma_view_wf();
        }
        let (found, i) = locate(&self.tasks, id);
        if !found {
            assert(self@.tasks.remove(id) =~= self@.tasks);
            return Err(StoreError::NotFound { id });
        }
        let mut tasks: Vec<Task> = Vec::new();
        std::mem::swap(&mut tasks, &mut self.tasks);
        let ghost before = views(tasks@);
        tasks.remove(i);
        proof {
            assert(views(tasks@) =~= before.remove(i as int));
            lemma_as_map_remove(before, i as int);
            assert forall|j: int| 0 <= j < tasks.len() implies (#[trigger] tasks[j])@.id
                < self.next_id by {
                let jj = if j < i { j } else { j + 1 };
                assert(tasks[j] == old(self).tasks[jj]);
            }
        }
        self.tasks = tasks;
        proof {
            self.lemma_view_wf();
        }
        Ok(())
    }

    /// Takes in a task under its own identifier, in place of any task the
    /// store had under it, and moves the next identifier above it.
    fn put(&mut self, task: Task)
        ensures
            final(self)@ == old(self)@.with_task(task@),
            final(self)@.wf(),
    {
        proof {
            use_type_invariant(&*self);
        }
        let id = task.id();
        let (found, i) = locate(&self.tasks, id);
        let mut tasks: Vec<Task> = Vec::new();
        std::mem::swap(&mut tasks, &mut self.tasks);
        let ghost before = views(tasks@);
        if found {
            tasks.set(i, task);
            proof {
                assert(views(tasks@) =~= before.update(i as int, task@));
                lemma_as_map_update(before, i as int, task@);
            }
        } else {
            tasks.insert(i, task);
            proof {
                assert(views(tasks@) =~= before.insert(i as int, task@));
                lemma_as_map_insert(before, i as int, task@);
            }
        }
        if self.next_id <= id as u64 {
            self.next_id = id as u64 + 1;
        }
        proof {
            assert forall|j: int| 0 <= j < tasks.len() implies (#[trigger] tasks[j])@.id
                < self.next_id by {
                if found {
                    if j != i {
                        assert(tasks[j] == old(self).tasks[j]);
                    }
                } else {
                    if j != i {
                        let jj = if j < i { j } else { j - 1 };
                        assert(tasks[j] == old(self).tasks[jj]);
                    }
                }
            }
        }
        self.tasks = tasks;
        proof {
            self.lemma_view_wf();
        }
    }

    /// Reads the text of the store's file into the store, line by line.
    /// Each well-formed line puts its task into the store, in place of any
    /// task with the same identifier, and moves the next identifier above
    /// it. Any other line is passed over.
    pub fn load_from_str(&mut self, contents: &str)
        ensures
            final(self)@ == old(self)@.loaded(contents@),
            final(self)@.wf(),
    {
        proof {
            use_type_invariant(&*self);
            self.lemma_view_wf();
        }
        let chars = chars_of(contents);
        let text = chars.as_slice();
        let n = text.len();
        let ghost start = self@;
        let ghost mut done: Seq<Seq<char>> = Seq::empty();
        let mut pos: usize = 0;
        assert(text@.skip(0) =~= text@);
        while pos < n
            invariant
                pos <= n,
                n == text.len(),
                lines_of(text@) == done + lines_of(text@.skip(pos as int)),
                self@ == start.with_lines(done),
                self@.wf(),
            decreases n - pos,
        {
            let end = find_char(text, pos, '\n');
            let stop = if end < n && pos < end && text[end - 1] == '\r' {
                end - 1
            } else {
                end
            };
            let line = slice_subrange(text, pos, stop);
            proof {
                lemma_lines_of_from(text@, pos as int, end as int);
                if end < n {
                    assert(line@ =~= strip_cr(text@.subrange(pos as int, end as int)));
                } else {
                    assert(line@ =~= text@.skip(pos as int));
                }
                assert(done.push(line@).drop_last() =~= done);
            }
            match parse_line(line) {
                Some(task) => self.put(task),
                None => {},
            }
            pos = if end < n {
                end + 1
            } else {
                n
            };
            proof {
                done = done.push(line@);
            }
        }
        assert(done + lines_of(text@.skip(pos as int)) =~= done);
    }

    /// The text to write to the store's file: one line for each task, by
    /// increasing identifier.
    pub fn save_to_string(&self) -> (contents: String)
        ensures
            contents@ == self@.saved(),
    {
        proof {
            use_type_invariant(self);
            lemma_listing_of_increasing(views(self.tasks@));
        }
        let mut contents = String::new();
        let mut i: usize = 0;
        while i < self.tasks.len()
            invariant
                i <= self.tasks.len(),
                contents@ == rendered(views(self.tasks@).take(i as int)),
            decreases self.tasks.len() - i,
        {
            push_line(&mut contents, &self.tasks[i]);
            proof {
                let next = views(self.tasks@).take(i + 1);
                assert(next.drop_last() =~= views(self.tasks@).take(i as int));
                assert(next.last() == self.tasks[i as int]@);
            }
            i += 1;
        }
        assert(views(self.tasks@).take(i as int) =~= views(self.tasks@));
        contents
    }
}

} // verus!
