use std::collections::{HashMap, VecDeque};

use async_experiments::mini_executor::{
    crate_name, Completer, Executor, ExecutorState, Task, TaskState, TaskWaker, WaitEntry,
    WaitFuture, WaitTable,
};

fn setup() -> (WaitTable, ExecutorState) {
    let mut entries = HashMap::with_capacity(10);
    for i in 0..10 {
        entries.insert(
            i,
            WaitEntry {
                state: TaskState::Waiting,
                waker: None,
            },
        );
    }
    let table = WaitTable { entries };
    let mut exec = ExecutorState {
        queue: VecDeque::new(),
        tasks: HashMap::new(),
    };
    for i in 0..10 {
        exec.tasks.insert(
            i,
            Task {
                id: i,
                fut: WaitFuture { id: i },
            },
        );
        exec.queue.push_back(i);
    }
    (table, exec)
}

#[test]
fn mini_executor_test_happy() {
    let (mut table, mut exec) = setup();

    Executor::run(&mut exec, &mut table);
    assert!(exec.queue.is_empty());
    assert_eq!(exec.tasks.len(), 10);

    Completer::advance(&mut table, &mut exec, 3);

    assert_eq!(exec.queue.len(), 1);
    assert_eq!(exec.queue[0], 3);

    Executor::run(&mut exec, &mut table);

    assert!(exec.queue.is_empty());
    assert_eq!(exec.tasks.len(), 9);
    assert!(!exec.tasks.contains_key(&3));
}

#[test]
fn mini_executor_run_registers_task_wakers() {
    let (mut table, mut exec) = setup();
    Executor::run(&mut exec, &mut table);
    for i in 0..10 {
        let entry = table.entries.get(&i).unwrap();
        assert_eq!(entry.state, TaskState::Waiting);
        assert_eq!(entry.waker, Some(TaskWaker { task_id: i }));
    }
}

#[test]
fn mini_executor_unqueued_tasks_stay() {
    let (mut table, mut exec) = setup();
    exec.queue.clear();
    exec.queue.push_back(4);
    table.entries.get_mut(&4).unwrap().state = TaskState::Completed;
    table.entries.get_mut(&5).unwrap().state = TaskState::Completed;
    Executor::run(&mut exec, &mut table);
    assert!(!exec.tasks.contains_key(&4));
    assert!(exec.tasks.contains_key(&5));
    assert_eq!(exec.tasks.len(), 9);
}

#[test]
fn mini_executor_unknown_task_is_skipped() {
    let (mut table, mut exec) = setup();
    exec.queue.clear();
    exec.queue.push_back(99);
    Executor::run(&mut exec, &mut table);
    assert!(exec.queue.is_empty());
    assert_eq!(exec.tasks.len(), 10);
    assert!(!table.entries.contains_key(&99));
}

#[test]
fn mini_executor_advance_without_waker_queues_nothing() {
    let (mut table, mut exec) = setup();
    exec.queue.clear();
    Completer::advance(&mut table, &mut exec, 2);
    assert!(exec.queue.is_empty());
    assert_eq!(table.entries.get(&2).unwrap().state, TaskState::Completed);
}

#[test]
fn mini_executor_crate_name() {
    assert_eq!(crate_name(), "mini-executor");
}
