//! A tiny executor: a run queue of task ids, the tasks themselves, and a
//! waker per task that puts the task back on the run queue.

use vstd::prelude::*;
use std::collections::{HashMap, VecDeque};
use crate::poll::Poll;

verus! {

broadcast use vstd::std_specs::hash::group_hash_axioms;

/// Where a waited-on operation stands.
#[derive(Clone, Copy, Debug, PartialEq, Eq, Structural)]
pub enum TaskState {
    Waiting,
    Completed,
}

/// The waker the executor hands to a task: waking it queues the task again.
#[derive(Clone, Copy, Debug, PartialEq, Eq, Structural)]
pub struct TaskWaker {
    pub task_id: i32,
}

/// One waited-on operation and the waker of the task waiting on it.
pub struct WaitEntry {
    pub state: TaskState,
    pub waker: Option<TaskWaker>,
}

/// The operations that tasks wait on, by id.
pub struct WaitTable {
    pub entries: HashMap<i32, WaitEntry>,
}

/// A future that waits until its operation is completed.
pub struct WaitFuture {
    pub id: i32,
}

/// A task: its id and the future it runs.
pub struct Task {
    pub id: i32,
    pub fut: WaitFuture,
}

/// The executor's state: the ids of tasks to poll, in order, and the
/// tasks that are not finished.
pub struct ExecutorState {
    pub queue: VecDeque<i32>,
    pub tasks: HashMap<i32, Task>,
}

/// Whether operation `id` is completed in the table.
pub open spec fn is_completed(table: Map<i32, WaitEntry>, id: i32) -> bool {
    table.contains_key(id) && table[id].state == TaskState::Completed
}

/// What polling task `id` once does: a missing task is skipped; a task
/// whose operation is completed finishes and is dropped; any other task
/// registers a waker that names it and stays.
pub open spec fn poll_step(id: i32, tasks: Map<i32, Task>, table: Map<i32, WaitEntry>) -> (
    Map<i32, Task>,
    Map<i32, WaitEntry>,
) {
    if !tasks.contains_key(id) {
        (tasks, table)
    } else if is_completed(table, tasks[id].fut.id) {
        (tasks.remove(id), table)
    } else {
        (
            tasks,
            table.insert(
                tasks[id].fut.id,
                WaitEntry { state: TaskState::Waiting, waker: Some(TaskWaker { task_id: id }) },
            ),
        )
    }
}

/// What running the queue `q` front to back does to the tasks and the table.
pub open spec fn run_queue(q: Seq<i32>, tasks: Map<i32, Task>, table: Map<i32, WaitEntry>) -> (
    Map<i32, Task>,
    Map<i32, WaitEntry>,
)
    decreases q.len(),
{
    if q.len() == 0 {
        (tasks, table)
    } else {
        let (t, tb) = poll_step(q[0], tasks, table);
        run_queue(q.drop_first(), t, tb)
    }
}

impl WaitFuture {
    /// Polls the future for the task that `waker` names: a completed
    /// operation makes it ready and changes nothing; otherwise the
    /// operation's entry (created if missing) is `Waiting` with `waker`.
    pub fn poll(&self, table: &mut WaitTable, waker: TaskWaker) -> (r: Poll<()>)
        ensures
            is_completed(old(table).entries@, self.id) ==> {
                &&& r is Ready
                &&& final(table).entries@ == old(table).entries@
            },
            !is_completed(old(table).entries@, self.id) ==> {
                &&& r is Pending
                &&& final(table).entries@ == old(table).entries@.insert(
                    self.id,
                    WaitEntry { state: TaskState::Waiting, waker: Some(waker) },
                )
            },
    {
        let found = table.entries.remove(&self.id);
        match found {
            Some(entry) => {
                match entry.state {
                    TaskState::Completed => {
                        table.entries.insert(self.id, entry);
                        proof {
                            assert(final(table).entries@ =~= old(table).entries@);
                        }
                        Poll::Ready(())
                    },
                    TaskState::Waiting => {
                        table.entries.insert(
                            self.id,
                            WaitEntry { state: TaskState::Waiting, waker: Some(waker) },
                        );
                        Poll::Pending
                    },
                }
            },
            None => {
                table.entries.insert(
                    self.id,
                    WaitEntry { state: TaskState::Waiting, waker: Some(waker) },
                );
                Poll::Pending
            },
        }
    }
}

impl ExecutorState {
    /// Puts task `task_id` at the back of the run queue.
    pub fn push(&mut self, task_id: i32)
        ensures
            final(self).queue@ == old(self).queue@.push(task_id),
            final(self).tasks@ == old(self).tasks@,
    {
        self.queue.push_back(task_id);
    }
}

impl TaskWaker {
    /// Wakes the task: it is queued to be polled again.
    pub fn wake(self, state: &mut ExecutorState)
        ensures
            final(state).queue@ == old(state).queue@.push(self.task_id),
            final(state).tasks@ == old(state).tasks@,
    {
        state.push(self.task_id);
    }
}

/// Completes operations and wakes the tasks waiting on them.
pub struct Completer;

impl Completer {
    /// Completes operation `id`, which must be in the table and still
    /// waiting, and wakes the task whose waker was registered there, if
    /// any: that task's id goes to the back of the run queue.
    pub fn advance(table: &mut WaitTable, state: &mut ExecutorState, id: i32)
        requires
            old(table).entries@.contains_key(id),
            old(table).entries@[id].state == TaskState::Waiting,
        ensures
            final(table).entries@ == old(table).entries@.insert(
                id,
                WaitEntry { state: TaskState::Completed, waker: None },
            ),
            final(state).tasks@ == old(state).tasks@,
            final(state).queue@ == match old(table).entries@[id].waker {
                Some(w) => old(state).queue@.push(w.task_id),
                None => old(state).queue@,
            },
    {
        let entry = table.entries.remove(&id);
        let entry = entry.unwrap();
        let waker = entry.waker;
        table.entries.insert(id, WaitEntry { state: TaskState::Completed, waker: None });
        if let Some(w) = waker {
            w.wake(state);
        }
    }
}

/// Runs queued tasks.
pub struct Executor;

impl Executor {
    /// Polls queued tasks until the queue is empty. Each popped id is
    /// polled with a waker naming it: a task that finishes is dropped, one
    /// that is pending is kept; an id with no task is skipped.
    pub fn run(state: &mut ExecutorState, table: &mut WaitTable)
        ensures
            final(state).queue@.len() == 0,
            (final(state).tasks@, final(table).entries@) == run_queue(
                old(state).queue@,
                old(state).tasks@,
                old(table).entries@,
            ),
    {
        loop
            invariant
                run_queue(state.queue@, state.tasks@, table.entries@) == run_queue(
                    old(state).queue@,
                    old(state).tasks@,
                    old(table).entries@,
                ),
            ensures
                state.queue@.len() == 0,
                (state.tasks@, table.entries@) == run_queue(
                    old(state).queue@,
                    old(state).tasks@,
                    old(table).entries@,
                ),
            decreases state.queue@.len(),
        {
            let ghost q = state.queue@;
            let ghost tasks0 = state.tasks@;
            let ghost table0 = table.entries@;
            let popped = state.queue.pop_front();
            let id = match popped {
                Some(id) => id,
                None => {
                    break ;
                },
            };
            proof {
                assert(state.queue@ =~= q.drop_first());
                assert(run_queue(q, tasks0, table0) == run_queue(
                    q.drop_first(),
                    poll_step(id, tasks0, table0).0,
                    poll_step(id, tasks0, table0).1,
                ));
            }
            let task = state.tasks.remove(&id);
            let task = match task {
                Some(t) => t,
                None => {
                    proof {
                        assert(state.tasks@ =~= tasks0);
                    }
                    continue ;
                },
            };
            let r = task.fut.poll(table, TaskWaker { task_id: id });
            match r {
                Poll::Ready(_) => {},
                Poll::Pending => {
                    state.tasks.insert(id, task);
                    proof {
                        assert(state.tasks@ =~= tasks0);
                    }
                },
            }
        }
    }
}

/// Running the queue never creates a task, and a task whose id is not
/// queued comes out exactly as it went in.
pub proof fn lemma_run_keeps_unqueued_tasks(
    q: Seq<i32>,
    tasks: Map<i32, Task>,
    table: Map<i32, WaitEntry>,
)
    ensures
        run_queue(q, tasks, table).0.dom().subset_of(tasks.dom()),
        forall|id: i32|
            !q.contains(id) && #[trigger] tasks.contains_key(id) ==> {
                &&& run_queue(q, tasks, table).0.contains_key(id)
                &&& run_queue(q, tasks, table).0[id] == tasks[id]
            },
    decreases q.len(),
{
    if q.len() > 0 {
        let (t, tb) = poll_step(q[0], tasks, table);
        lemma_run_keeps_unqueued_tasks(q.drop_first(), t, tb);
        assert forall|id: i32|
            !q.contains(id) && #[trigger] tasks.contains_key(id) implies {
                &&& run_queue(q, tasks, table).0.contains_key(id)
                &&& run_queue(q, tasks, table).0[id] == tasks[id]
            } by {
            assert(id != q[0]);
            if q.drop_first().contains(id) {
                let k = choose|k: int| 0 <= k < q.drop_first().len() && q.drop_first()[k] == id;
                assert(q[k + 1] == id);
            }
        }
    }
}

/// A queued task whose operation is already completed when the queue
/// runs is finished and dropped.
pub proof fn lemma_run_drops_completed_tasks(
    q: Seq<i32>,
    tasks: Map<i32, Task>,
    table: Map<i32, WaitEntry>,
    id: i32,
)
    requires
        q.contains(id),
        tasks.contains_key(id),
        is_completed(table, tasks[id].fut.id),
    ensures
        !run_queue(q, tasks, table).0.contains_key(id),
    decreases q.len(),
{
    let (t, tb) = poll_step(q[0], tasks, table);
    if q[0] == id {
        assert(!t.contains_key(id));
        lemma_run_keeps_unqueued_tasks(q.drop_first(), t, tb);
    } else {
        let k = choose|k: int| 0 <= k < q.len() && q[k] == id;
        assert(q.drop_first()[k - 1] == id);
        assert(t.contains_key(id) && t[id] == tasks[id]);
        if tasks.contains_key(q[0]) && !is_completed(table, tasks[q[0]].fut.id) {
            assert(is_completed(tb, tasks[id].fut.id));
        }
        lemma_run_drops_completed_tasks(q.drop_first(), t, tb, id);
    }
}

/// No two tasks wait on the same operation.
pub open spec fn distinct_operations(tasks: Map<i32, Task>) -> bool {
    forall|i: i32, j: i32|
        #![trigger tasks[i], tasks[j]]
        tasks.contains_key(i) && tasks.contains_key(j) && i != j ==> tasks[i].fut.id != tasks[j].fut.id
}

/// A task whose waker is registered on its operation keeps that
/// registration, and stays, however the rest of the queue runs.
proof fn lemma_registration_stays(
    q: Seq<i32>,
    tasks: Map<i32, Task>,
    table: Map<i32, WaitEntry>,
    id: i32,
)
    requires
        distinct_operations(tasks),
        tasks.contains_key(id),
        table.contains_key(tasks[id].fut.id),
        table[tasks[id].fut.id] == (WaitEntry {
            state: TaskState::Waiting,
            waker: Some(TaskWaker { task_id: id }),
        }),
    ensures
        run_queue(q, tasks, table).0.contains_key(id),
        run_queue(q, tasks, table).0[id] == tasks[id],
        run_queue(q, tasks, table).1.contains_key(tasks[id].fut.id),
        run_queue(q, tasks, table).1[tasks[id].fut.id] == (WaitEntry {
            state: TaskState::Waiting,
            waker: Some(TaskWaker { task_id: id }),
        }),
    decreases q.len(),
{
    if q.len() > 0 {
        let j = q[0];
        let (t, tb) = poll_step(j, tasks, table);
        if j != id && tasks.contains_key(j) {
            assert(tasks[j].fut.id != tasks[id].fut.id);
        }
        assert(t.contains_key(id) && t[id] == tasks[id]);
        assert(tb[tasks[id].fut.id] == table[tasks[id].fut.id]);
        assert(distinct_operations(t)) by {
            assert forall|a: i32, b: i32|
                #![trigger t[a], t[b]]
                t.contains_key(a) && t.contains_key(b) && a != b implies t[a].fut.id != t[b].fut.id by {
                assert(tasks.contains_key(a) && tasks.contains_key(b));
                assert(tasks[a] == t[a] && tasks[b] == t[b]);
            }
        }
        lemma_registration_stays(q.drop_first(), t, tb, id);
    }
}

/// After a run, every queued task whose operation is not completed is
/// still there and the operation's entry is waiting with a waker that names
/// that task (whatever id its future waits on), so completing the
/// operation queues exactly that task again. This holds when no two tasks
/// wait on the same operation.
pub proof fn lemma_run_registers_task_waker(
    q: Seq<i32>,
    tasks: Map<i32, Task>,
    table: Map<i32, WaitEntry>,
    id: i32,
)
    requires
        distinct_operations(tasks),
        q.contains(id),
        tasks.contains_key(id),
        !is_completed(table, tasks[id].fut.id),
    ensures
        run_queue(q, tasks, table).0.contains_key(id),
        run_queue(q, tasks, table).0[id] == tasks[id],
        run_queue(q, tasks, table).1.contains_key(tasks[id].fut.id),
        run_queue(q, tasks, table).1[tasks[id].fut.id].state == TaskState::Waiting,
        run_queue(q, tasks, table).1[tasks[id].fut.id].waker == Some(TaskWaker { task_id: id }),
    decreases q.len(),
{
    let j = q[0];
    let (t, tb) = poll_step(j, tasks, table);
    if j == id {
        lemma_registration_stays(q.drop_first(), t, tb, id);
    } else {
        let k = choose|k: int| 0 <= k < q.len() && q[k] == id;
        assert(q.drop_first()[k - 1] == id);
        if tasks.contains_key(j) {
            assert(tasks[j].fut.id != tasks[id].fut.id);
        }
        assert(t.contains_key(id) && t[id] == tasks[id]);
        assert(!is_completed(tb, tasks[id].fut.id));
        assert(distinct_operations(t)) by {
            assert forall|a: i32, b: i32|
                #![trigger t[a], t[b]]
                t.contains_key(a) && t.contains_key(b) && a != b implies t[a].fut.id != t[b].fut.id by {
                assert(tasks.contains_key(a) && tasks.contains_key(b));
                assert(tasks[a] == t[a] && tasks[b] == t[b]);
            }
        }
        lemma_run_registers_task_waker(q.drop_first(), t, tb, id);
    }
}

/// The exercise's name.
pub fn crate_name() -> (name: &'static str)
    ensures
        name@ == "mini-executor"@,
{
    "mini-executor"
}

} // verus!
