//! The mathematical model of a store: a finite map from identifiers to tasks
//! together with the next identifier to hand out, and what each operation
//! of the store does to it.

use crate::record::{parsed_line, rendered};
use crate::task::{TaskStatus, TaskView};
use crate::text::lines_of;
use vstd::prelude::*;

verus! {

/// One more than the largest identifier.
pub const ID_LIMIT: u64 = 0x1_0000_0000;

/// A store as contracts speak of it.
pub struct StoreState {
    /// The tasks held, by identifier.
    pub tasks: Map<u32, TaskView>,
    /// The identifier that the next new task gets.
    pub next_id: nat,
    /// Names the file that the store is kept in.
    pub path: Seq<char>,
}

/// The tasks of `tasks` with an identifier below `bound`, by increasing
/// identifier.
pub open spec fn tasks_below(tasks: Map<u32, TaskView>, bound: nat) -> Seq<TaskView>
    decreases bound,
{
    if bound == 0 {
        Seq::empty()
    } else {
        let id = (bound - 1) as u32;
        let before = tasks_below(tasks, (bound - 1) as nat);
        if tasks.contains_key(id) {
            before.push(tasks[id])
        } else {
            before
        }
    }
}

impl StoreState {
    /// The store without tasks, which hands out identifier 1 first.
    pub open spec fn empty(path: Seq<char>) -> StoreState {
        StoreState { tasks: Map::empty(), next_id: 1, path }
    }

    /// What holds of every store: it has finitely many tasks, each is filed
    /// under its own identifier, and the next identifier is above them all.
    pub open spec fn wf(self) -> bool {
        &&& self.tasks.dom().finite()
        &&& 1 <= self.next_id <= ID_LIMIT
        &&& forall|id: u32| #[trigger]
            self.tasks.contains_key(id) ==> self.tasks[id].id == id && id < self.next_id
    }

    /// Whether an identifier is left for a new task.
    pub open spec fn has_free_id(self) -> bool {
        self.next_id < ID_LIMIT
    }

    /// The store after it took in `task` under the task's own identifier,
    /// in place of any task it had under that identifier. The next
    /// identifier moves up where it has to.
    pub open spec fn with_task(self, task: TaskView) -> StoreState {
        StoreState {
            tasks: self.tasks.insert(task.id, task),
            next_id: if self.next_id > task.id {
                self.next_id
            } else {
                (task.id + 1) as nat
            },
            ..self
        }
    }

    /// The task that creation makes of the two texts.
    pub open spec fn new_task(self, title: Seq<char>, description: Seq<char>) -> TaskView {
        TaskView { id: self.next_id as u32, title, description, status: TaskStatus::Pending }
    }

    /// The store after a task was created from the two texts.
    pub open spec fn created(self, title: Seq<char>, description: Seq<char>) -> StoreState
        recommends
            self.has_free_id(),
    {
        StoreState {
            tasks: self.tasks.insert(self.next_id as u32, self.new_task(title, description)),
            next_id: self.next_id + 1,
            ..self
        }
    }

    /// The store after the task `id` got the status `status`. A store that
    /// has no such task stays as it is.
    pub open spec fn marked(self, id: u32, status: TaskStatus) -> StoreState {
        if self.tasks.contains_key(id) {
            StoreState { tasks: self.tasks.insert(id, self.tasks[id].with_status(status)), ..self }
        } else {
            self
        }
    }

    /// The store after the task `id` was taken out for good. The next
    /// identifier stays, so `id` is not handed out again.
    pub open spec fn without(self, id: u32) -> StoreState {
        StoreState { tasks: self.tasks.remove(id), ..self }
    }

    /// The store after it read the given lines in order. A line that is not
    /// well formed changes nothing.
    pub open spec fn with_lines(self, lines: Seq<Seq<char>>) -> StoreState
        decreases lines.len(),
    {
        if lines.len() == 0 {
            self
        } else {
            let before = self.with_lines(lines.drop_last());
            match parsed_line(lines.last()) {
                Some(task) => before.with_task(task),
                None => before,
            }
        }
    }

    /// The store after it read a text line by line.
    pub open spec fn loaded(self, text: Seq<char>) -> StoreState {
        self.with_lines(lines_of(text))
    }

    /// All tasks of the store, by increasing identifier.
    pub open spec fn listing(self) -> Seq<TaskView> {
        tasks_below(self.tasks, ID_LIMIT as nat)
    }

    /// The text that stands for the store: one line for each task, by
    /// increasing identifier.
    pub open spec fn saved(self) -> Seq<char> {
        rendered(self.listing())
    }
}

/// Whether the identifiers strictly increase along the sequence.
pub open spec fn increasing(tasks: Seq<TaskView>) -> bool {
    forall|i: int, j: int| 0 <= i < j < tasks.len() ==> tasks[i].id < tasks[j].id
}

/// The map that files each task of the sequence under its identifier.
pub open spec fn as_map(tasks: Seq<TaskView>) -> Map<u32, TaskView>
    decreases tasks.len(),
{
    if tasks.len() == 0 {
        Map::empty()
    } else {
        as_map(tasks.drop_last()).insert(tasks.last().id, tasks.last())
    }
}

/// The map of an increasing sequence is finite and holds exactly the tasks
/// of the sequence, each under its identifier.
pub proof fn lemma_as_map(tasks: Seq<TaskView>)
    requires
        increasing(tasks),
    ensures
        as_map(tasks).dom().finite(),
        forall|i: int|
            0 <= i < tasks.len() ==> as_map(tasks).contains_key((#[trigger] tasks[i]).id)
                && as_map(tasks)[tasks[i].id] == tasks[i],
        forall|id: u32| #[trigger]
            as_map(tasks).contains_key(id) ==> exists|i: int|
                0 <= i < tasks.len() && (#[trigger] tasks[i]).id == id,
    decreases tasks.len(),
{
    if tasks.len() > 0 {
        let init = tasks.drop_last();
        let last = tasks.last();
        lemma_as_map(init);
        assert forall|i: int| 0 <= i < tasks.len() implies as_map(tasks).contains_key(
            (#[trigger] tasks[i]).id,
        ) && as_map(tasks)[tasks[i].id] == tasks[i] by {
            if i < tasks.len() - 1 {
                assert(tasks[i] == init[i]);
                assert(tasks[i].id < last.id);
            }
        }
        assert forall|id: u32| #[trigger] as_map(tasks).contains_key(id) implies exists|i: int|
            0 <= i < tasks.len() && (#[trigger] tasks[i]).id == id by {
            if id == last.id {
                assert(tasks[tasks.len() - 1].id == id);
            } else {
                assert(as_map(init).contains_key(id));
                let i = choose|i: int| 0 <= i < init.len() && (#[trigger] init[i]).id == id;
                assert(tasks[i].id == id);
            }
        }
    }
}

/// Listing up to a bound above all identifiers lists everything.
pub proof fn lemma_tasks_below_beyond(tasks: Map<u32, TaskView>, bound: nat, beyond: nat)
    requires
        bound <= beyond <= ID_LIMIT,
        forall|id: u32| #[trigger] tasks.contains_key(id) ==> id < bound,
    ensures
        tasks_below(tasks, beyond) == tasks_below(tasks, bound),
    decreases beyond,
{
    if bound < beyond {
        lemma_tasks_below_beyond(tasks, bound, (beyond - 1) as nat);
    }
}

/// Listing up to a bound looks at nothing from the bound on.
pub proof fn lemma_tasks_below_agree(a: Map<u32, TaskView>, b: Map<u32, TaskView>, bound: nat)
    requires
        forall|id: u32|
            id < bound ==> (#[trigger] a.contains_key(id) <==> b.contains_key(id)) && (
            a.contains_key(id) ==> a[id] == b[id]),
    ensures
        tasks_below(a, bound) == tasks_below(b, bound),
    decreases bound,
{
    if bound > 0 {
        lemma_tasks_below_agree(a, b, (bound - 1) as nat);
        let id = (bound - 1) as u32;
        assert(a.contains_key(id) <==> b.contains_key(id));
    }
}

/// An increasing sequence is the listing of its own map.
pub proof fn lemma_listing_of_increasing(tasks: Seq<TaskView>)
    requires
        increasing(tasks),
    ensures
        tasks_below(as_map(tasks), ID_LIMIT as nat) == tasks,
    decreases tasks.len(),
{
    let all = as_map(tasks);
    if tasks.len() == 0 {
        lemma_tasks_below_beyond(all, 0, ID_LIMIT as nat);
    } else {
        let init = tasks.drop_last();
        let last = tasks.last();
        let bound = last.id as nat;
        lemma_as_map(tasks);
        lemma_as_map(init);
        lemma_listing_of_increasing(init);
        assert forall|id: u32| #[trigger] all.contains_key(id) implies id < bound + 1 by {
            let i = choose|i: int| 0 <= i < tasks.len() && (#[trigger] tasks[i]).id == id;
        }
        lemma_tasks_below_beyond(all, bound + 1, ID_LIMIT as nat);
        assert forall|id: u32| #[trigger] as_map(init).contains_key(id) implies id < bound by {
            let i = choose|i: int| 0 <= i < init.len() && (#[trigger] init[i]).id == id;
            assert(init[i] == tasks[i]);
        }
        lemma_tasks_below_beyond(as_map(init), bound, ID_LIMIT as nat);
        lemma_tasks_below_agree(all, as_map(init), bound);
        assert(tasks_below(all, bound + 1) == tasks_below(all, bound).push(all[last.id]));
        assert(init.push(last) =~= tasks);
    }
}

/// Replacing a task by one with the same identifier keeps the order and
/// replaces the task in the map.
pub proof fn lemma_as_map_update(tasks: Seq<TaskView>, i: int, task: TaskView)
    requires
        increasing(tasks),
        0 <= i < tasks.len(),
        task.id == tasks[i].id,
    ensures
        increasing(tasks.update(i, task)),
        as_map(tasks.update(i, task)) == as_map(tasks).insert(task.id, task),
{
    let after = tasks.update(i, task);
    lemma_as_map(tasks);
    lemma_as_map(after);
    let a = as_map(after);
    let b = as_map(tasks).insert(task.id, task);
    assert forall|id: u32| a.contains_key(id) <==> b.contains_key(id) by {
        if a.contains_key(id) {
            let j = choose|j: int| 0 <= j < after.len() && (#[trigger] after[j]).id == id;
            assert(tasks[j].id == id);
        }
        if b.contains_key(id) && id != task.id {
            let j = choose|j: int| 0 <= j < tasks.len() && (#[trigger] tasks[j]).id == id;
            assert(after[j].id == id);
        }
        if id == task.id {
            assert(after[i].id == id);
        }
    }
    assert forall|id: u32| a.contains_key(id) implies a[id] == b[id] by {
        let j = choose|j: int| 0 <= j < after.len() && (#[trigger] after[j]).id == id;
        assert(a[after[j].id] == after[j]);
        if j != i {
            assert(after[j] == tasks[j]);
            assert(as_map(tasks)[tasks[j].id] == tasks[j]);
        }
    }
    assert(a =~= b);
}

/// Taking a task out of the sequence keeps the order and takes its
/// identifier out of the map.
pub proof fn lemma_as_map_remove(tasks: Seq<TaskView>, i: int)
    requires
        increasing(tasks),
        0 <= i < tasks.len(),
    ensures
        increasing(tasks.remove(i)),
        as_map(tasks.remove(i)) == as_map(tasks).remove(tasks[i].id),
{
    let after = tasks.remove(i);
    assert forall|j: int, k: int| 0 <= j < k < after.len() implies after[j].id < after[k].id by {
        let jj = if j < i { j } else { j + 1 };
        let kk = if k < i { k } else { k + 1 };
        assert(after[j] == tasks[jj] && after[k] == tasks[kk]);
    }
    lemma_as_map(tasks);
    lemma_as_map(after);
    let a = as_map(after);
    let b = as_map(tasks).remove(tasks[i].id);
    assert forall|id: u32| a.contains_key(id) <==> b.contains_key(id) by {
        if a.contains_key(id) {
            let j = choose|j: int| 0 <= j < after.len() && (#[trigger] after[j]).id == id;
            let jj = if j < i { j } else { j + 1 };
            assert(after[j] == tasks[jj]);
            assert(tasks[jj].id == id);
        }
        if b.contains_key(id) {
            let j = choose|j: int| 0 <= j < tasks.len() && (#[trigger] tasks[j]).id == id;
            let jj = if j < i { j } else { j - 1 };
            assert(after[jj] == tasks[j]);
            assert(after[jj].id == id);
        }
    }
    assert forall|id: u32| a.contains_key(id) implies a[id] == b[id] by {
        let j = choose|j: int| 0 <= j < after.len() && (#[trigger] after[j]).id == id;
        let jj = if j < i { j } else { j + 1 };
        assert(after[j] == tasks[jj]);
        assert(a[after[j].id] == after[j]);
        assert(as_map(tasks)[tasks[jj].id] == tasks[jj]);
    }
    assert(a =~= b);
}

/// Putting a task where its identifier belongs keeps the order and adds the
/// task to the map.
pub proof fn lemma_as_map_insert(tasks: Seq<TaskView>, i: int, task: TaskView)
    requires
        increasing(tasks),
        0 <= i <= tasks.len(),
        forall|j: int| 0 <= j < i ==> tasks[j].id < task.id,
        forall|j: int| i <= j < tasks.len() ==> task.id < tasks[j].id,
    ensures
        increasing(tasks.insert(i, task)),
        as_map(tasks.insert(i, task)) == as_map(tasks).insert(task.id, task),
{
    let after = tasks.insert(i, task);
    assert forall|j: int, k: int| 0 <= j < k < after.len() implies after[j].id < after[k].id by {
        if j != i && k != i {
            let jj = if j < i { j } else { j - 1 };
            let kk = if k < i { k } else { k - 1 };
            assert(after[j] == tasks[jj] && after[k] == tasks[kk]);
        } else if j == i {
            assert(after[k] == tasks[k - 1]);
        } else {
            assert(after[j] == tasks[j]);
        }
    }
    lemma_as_map(tasks);
    lemma_as_map(after);
    let a = as_map(after);
    let b = as_map(tasks).insert(task.id, task);
    assert forall|id: u32| a.contains_key(id) <==> b.contains_key(id) by {
        if a.contains_key(id) {
            let j = choose|j: int| 0 <= j < after.len() && (#[trigger] after[j]).id == id;
            if j != i {
                let jj = if j < i { j } else { j - 1 };
                assert(after[j] == tasks[jj]);
                assert(tasks[jj].id == id);
            }
        }
        if b.contains_key(id) && id != task.id {
            let j = choose|j: int| 0 <= j < tasks.len() && (#[trigger] tasks[j]).id == id;
            let jj = if j < i { j } else { j + 1 };
            assert(after[jj] == tasks[j]);
            assert(after[jj].id == id);
        }
        if id == task.id {
            assert(after[i].id == id);
        }
    }
    assert forall|id: u32| a.contains_key(id) implies a[id] == b[id] by {
        let j = choose|j: int| 0 <= j < after.len() && (#[trigger] after[j]).id == id;
        assert(a[after[j].id] == after[j]);
        if j != i {
            let jj = if j < i { j } else { j - 1 };
            assert(after[j] == tasks[jj]);
            assert(as_map(tasks)[tasks[jj].id] == tasks[jj]);
        }
    }
    assert(a =~= b);
}

/// Listing up to a bound gives, by increasing identifier, exactly the tasks
/// filed below the bound.
pub proof fn lemma_tasks_below(tasks: Map<u32, TaskView>, bound: nat)
    requires
        bound <= ID_LIMIT,
        forall|id: u32| #[trigger] tasks.contains_key(id) ==> tasks[id].id == id,
    ensures
        increasing(tasks_below(tasks, bound)),
        forall|i: int|
            0 <= i < tasks_below(tasks, bound).len() ==> (#[trigger] tasks_below(
                tasks,
                bound,
            )[i]).id < bound,
        forall|id: u32|
            (#[trigger] as_map(tasks_below(tasks, bound)).contains_key(id)) <==> (
            tasks.contains_key(id) && id < bound),
        forall|id: u32|
            tasks.contains_key(id) && id < bound ==> #[trigger] as_map(
                tasks_below(tasks, bound),
            )[id] == tasks[id],
    decreases bound,
{
    if bound > 0 {
        let id = (bound - 1) as u32;
        let before = tasks_below(tasks, (bound - 1) as nat);
        lemma_tasks_below(tasks, (bound - 1) as nat);
        if tasks.contains_key(id) {
            let all = before.push(tasks[id]);
            assert(all.drop_last() =~= before);
            assert(as_map(all) == as_map(before).insert(id, tasks[id]));
        }
    }
}

/// The listing of a store holds exactly its tasks, by increasing identifier.
pub proof fn lemma_listing(store: StoreState)
    requires
        store.wf(),
    ensures
        increasing(store.listing()),
        as_map(store.listing()) == store.tasks,
        forall|i: int|
            0 <= i < store.listing().len() ==> store.tasks.contains_key(
                (#[trigger] store.listing()[i]).id,
            ) && store.tasks[store.listing()[i].id] == store.listing()[i],
{
    lemma_tasks_below(store.tasks, ID_LIMIT as nat);
    assert(as_map(store.listing()) =~= store.tasks);
    lemma_as_map(store.listing());
}

} // verus!
