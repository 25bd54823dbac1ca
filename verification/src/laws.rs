//! What holds of a store over its whole life: across any run of operations,
//! and across writing it out and reading it back.

use crate::model::{as_map, increasing, lemma_listing, StoreState};
use crate::record::{
    has_plain_texts, is_plain, lemma_line_reads_back, lemma_lines_of_rendered, line_of,
};
use crate::task::{TaskStatus, TaskView};
use crate::text::lines_of;
use vstd::prelude::*;

verus! {

/// One operation on a store.
pub enum Operation {
    /// Create a pending task from the two texts.
    Create { title: Seq<char>, description: Seq<char> },
    /// Mark the task as completed.
    MarkCompleted { id: u32 },
    /// Mark the task as deleted, which keeps it in the store.
    MarkDeleted { id: u32 },
    /// Take the task out of the store for good.
    HardDelete { id: u32 },
}

impl Operation {
    /// Whether the texts that the operation brings are plain.
    pub open spec fn has_plain_texts(self) -> bool {
        match self {
            Operation::Create { title, description } => is_plain(title) && is_plain(description),
            _ => true,
        }
    }
}

impl StoreState {
    /// Whether the texts of all tasks are plain.
    pub open spec fn has_plain_texts(self) -> bool {
        forall|id: u32| #[trigger] self.tasks.contains_key(id) ==> has_plain_texts(self.tasks[id])
    }

    /// Whether the store can take the operation: creating needs a free
    /// identifier.
    pub open spec fn admits(self, op: Operation) -> bool {
        op is Create ==> self.has_free_id()
    }

    /// The store after the operation.
    pub open spec fn after(self, op: Operation) -> StoreState {
        match op {
            Operation::Create { title, description } => self.created(title, description),
            Operation::MarkCompleted { id } => self.marked(id, TaskStatus::Completed),
            Operation::MarkDeleted { id } => self.marked(id, TaskStatus::Deleted),
            Operation::HardDelete { id } => self.without(id),
        }
    }

    /// Whether the store can take the operations one after the other.
    pub open spec fn admits_all(self, ops: Seq<Operation>) -> bool
        decreases ops.len(),
    {
        ops.len() == 0 || (self.admits_all(ops.drop_last()) && self.after_all(
            ops.drop_last(),
        ).admits(ops.last()))
    }

    /// The store after the operations, one after the other.
    pub open spec fn after_all(self, ops: Seq<Operation>) -> StoreState
        decreases ops.len(),
    {
        if ops.len() == 0 {
            self
        } else {
            self.after_all(ops.drop_last()).after(ops.last())
        }
    }

    /// The identifiers that the operations hand out to new tasks.
    pub open spec fn issued(self, ops: Seq<Operation>) -> Set<u32>
        decreases ops.len(),
    {
        if ops.len() == 0 {
            Set::empty()
        } else if ops.last() is Create {
            self.issued(ops.drop_last()).insert(self.after_all(ops.drop_last()).next_id as u32)
        } else {
            self.issued(ops.drop_last())
        }
    }
}

/// One operation keeps a store valid and never lowers the next identifier.
pub proof fn lemma_operation_keeps_valid(store: StoreState, op: Operation)
    requires
        store.wf(),
        store.admits(op),
    ensures
        store.after(op).wf(),
        store.next_id <= store.after(op).next_id,
        store.after(op).path == store.path,
{
}

/// One operation with plain texts keeps all texts plain.
pub proof fn lemma_operation_keeps_plain(store: StoreState, op: Operation)
    requires
        store.has_plain_texts(),
        op.has_plain_texts(),
    ensures
        store.after(op).has_plain_texts(),
{
    let next = store.after(op);
    assert forall|id: u32| #[trigger] next.tasks.contains_key(id) implies has_plain_texts(
        next.tasks[id],
    ) by {
        match op {
            Operation::Create { title, description } => {
                if id != store.next_id as u32 {
                    assert(store.tasks.contains_key(id));
                }
            },
            _ => {
                assert(store.tasks.contains_key(id));
            },
        }
    }
}

/// A run of operations with plain texts keeps all texts plain.
pub proof fn lemma_operations_keep_plain(store: StoreState, ops: Seq<Operation>)
    requires
        store.has_plain_texts(),
        forall|i: int| 0 <= i < ops.len() ==> (#[trigger] ops[i]).has_plain_texts(),
    ensures
        store.after_all(ops).has_plain_texts(),
    decreases ops.len(),
{
    if ops.len() > 0 {
        let init = ops.drop_last();
        assert forall|i: int| 0 <= i < init.len() implies (#[trigger] init[i]).has_plain_texts() by {
            assert(init[i] == ops[i]);
        }
        lemma_operations_keep_plain(store, init);
        assert(ops.last() == ops[ops.len() - 1]);
        lemma_operation_keeps_plain(store.after_all(init), ops.last());
    }
}

/// Identifiers only grow: after any run of operations the store is valid,
/// so its next identifier is above the identifier of every task it holds;
/// the next identifier is no lower than before; and every identifier that
/// the run handed out lies between the old next identifier and the new one.
pub proof fn lemma_next_id_exceeds_issued(store: StoreState, ops: Seq<Operation>)
    requires
        store.wf(),
        store.admits_all(ops),
    ensures
        store.after_all(ops).wf(),
        store.next_id <= store.after_all(ops).next_id,
        forall|id: u32|
            store.issued(ops).contains(id) ==> store.next_id <= id < store.after_all(ops).next_id,
    decreases ops.len(),
{
    if ops.len() > 0 {
        let before = store.after_all(ops.drop_last());
        lemma_next_id_exceeds_issued(store, ops.drop_last());
        lemma_operation_keeps_valid(before, ops.last());
        assert forall|id: u32| store.issued(ops).contains(id) implies store.next_id <= id
            < store.after_all(ops).next_id by {
            if !store.issued(ops.drop_last()).contains(id) {
                assert(ops.last() is Create);
                assert(id == before.next_id as u32);
            }
        }
    }
}

/// Reading a text keeps a store valid and never lowers the next identifier.
pub proof fn lemma_lines_keep_valid(store: StoreState, lines: Seq<Seq<char>>)
    requires
        store.wf(),
    ensures
        store.with_lines(lines).wf(),
        store.next_id <= store.with_lines(lines).next_id,
        store.with_lines(lines).path == store.path,
    decreases lines.len(),
{
    if lines.len() > 0 {
        lemma_lines_keep_valid(store, lines.drop_last());
    }
}

/// Setting a task's status twice to the same value is setting it once.
pub proof fn lemma_status_is_idempotent(task: TaskView, status: TaskStatus)
    ensures
        task.with_status(status).with_status(status) == task.with_status(status),
{
}

/// Marking twice with the same status is marking once.
pub proof fn lemma_mark_is_idempotent(store: StoreState, id: u32, status: TaskStatus)
    ensures
        store.marked(id, status).marked(id, status) == store.marked(id, status),
{
    let once = store.marked(id, status);
    assert(once.marked(id, status).tasks =~= once.tasks);
}

/// An identifier below the next one that the store does not hold, such as
/// that of a task taken out for good, stays out: no run of operations
/// brings it back into the store or its listing, or hands it out again.
pub proof fn lemma_retired_id_stays_out(store: StoreState, id: u32, ops: Seq<Operation>)
    requires
        store.wf(),
        id < store.next_id,
        !store.tasks.contains_key(id),
        store.admits_all(ops),
    ensures
        !store.after_all(ops).tasks.contains_key(id),
        !store.issued(ops).contains(id),
        forall|i: int|
            0 <= i < store.after_all(ops).listing().len() ==> (#[trigger] store.after_all(
                ops,
            ).listing()[i]).id != id,
    decreases ops.len(),
{
    lemma_next_id_exceeds_issued(store, ops);
    if ops.len() > 0 {
        lemma_retired_id_stays_out(store, id, ops.drop_last());
        lemma_next_id_exceeds_issued(store, ops.drop_last());
    }
    lemma_listing(store.after_all(ops));
}

/// Taking a task out for good retires its identifier: whatever operations
/// follow, no task of the store or its listing has it, and no new task
/// gets it.
pub proof fn lemma_hard_delete_retires_id(store: StoreState, id: u32, ops: Seq<Operation>)
    requires
        store.wf(),
        store.tasks.contains_key(id),
        store.without(id).admits_all(ops),
    ensures
        !store.without(id).after_all(ops).tasks.contains_key(id),
        !store.without(id).issued(ops).contains(id),
        forall|i: int|
            0 <= i < store.without(id).after_all(ops).listing().len() ==> (
            #[trigger] store.without(id).after_all(ops).listing()[i]).id != id,
{
    lemma_retired_id_stays_out(store.without(id), id, ops);
}

/// Reading the lines of tasks that come by increasing identifier and have
/// plain texts into an empty store gives exactly those tasks, and a next
/// identifier one above the last of them.
pub proof fn lemma_lines_read_back(path: Seq<char>, tasks: Seq<TaskView>)
    requires
        increasing(tasks),
        forall|i: int| 0 <= i < tasks.len() ==> has_plain_texts(#[trigger] tasks[i]),
    ensures
        StoreState::empty(path).with_lines(tasks.map_values(|task: TaskView| line_of(task)))
            == (StoreState {
            tasks: as_map(tasks),
            next_id: if tasks.len() == 0 {
                1
            } else {
                (tasks.last().id + 1) as nat
            },
            path,
        }),
    decreases tasks.len(),
{
    let lines = tasks.map_values(|task: TaskView| line_of(task));
    if tasks.len() > 0 {
        let init = tasks.drop_last();
        let last = tasks.last();
        assert forall|i: int| 0 <= i < init.len() implies has_plain_texts(#[trigger] init[i]) by {
            assert(init[i] == tasks[i]);
        }
        lemma_lines_read_back(path, init);
        lemma_line_reads_back(last);
        assert(lines.drop_last() =~= init.map_values(|task: TaskView| line_of(task)));
        assert(lines.last() == line_of(last));
        if init.len() > 0 {
            assert(init.last() == tasks[tasks.len() - 2]);
        }
    }
}

/// Writing a store out and reading the text into an empty store gives the
/// same tasks: the same identifiers, each with the same title, description
/// and status. The next identifier is 1 for no tasks, else one above the
/// largest identifier of a task; it may be lower than it was, never higher.
pub proof fn lemma_save_then_load(store: StoreState, path: Seq<char>)
    requires
        store.wf(),
        store.has_plain_texts(),
    ensures
        StoreState::empty(path).loaded(store.saved()).tasks == store.tasks,
        StoreState::empty(path).loaded(store.saved()).wf(),
        StoreState::empty(path).loaded(store.saved()).next_id <= store.next_id,
        StoreState::empty(path).loaded(store.saved()).next_id == 1 || store.tasks.contains_key(
            (StoreState::empty(path).loaded(store.saved()).next_id - 1) as u32,
        ),
        StoreState::empty(path).loaded(store.saved()).path == path,
{
    let all = store.listing();
    lemma_listing(store);
    lemma_lines_of_rendered(all);
    lemma_lines_read_back(path, all);
    lemma_lines_keep_valid(StoreState::empty(path), lines_of(store.saved()));
}

/// After any run of operations with plain texts on a store whose texts are
/// plain, writing the store out and reading the text into an empty store
/// gives the same tasks.
pub proof fn lemma_round_trip_after_operations(
    store: StoreState,
    ops: Seq<Operation>,
    path: Seq<char>,
)
    requires
        store.wf(),
        store.has_plain_texts(),
        store.admits_all(ops),
        forall|i: int| 0 <= i < ops.len() ==> (#[trigger] ops[i]).has_plain_texts(),
    ensures
        StoreState::empty(path).loaded(store.after_all(ops).saved()).tasks == store.after_all(
            ops,
        ).tasks,
{
    lemma_operations_keep_plain(store, ops);
    lemma_next_id_exceeds_issued(store, ops);
    lemma_save_then_load(store.after_all(ops), path);
}

} // verus!
