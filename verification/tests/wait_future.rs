use std::collections::HashMap;

use async_experiments::manual_future::StateKind;
use async_experiments::poll::Poll;
use async_experiments::wait_future::{crate_name, WaitEntry, WaitFuture, WaitTable};

#[test]
fn lib_test_happy() {
    let mut entries = HashMap::with_capacity(10);
    for i in 0..10 {
        entries.insert(
            i,
            WaitEntry {
                state: StateKind::Init,
                waker: None,
            },
        );
    }
    let mut table: WaitTable<()> = WaitTable { entries };
    let mut count = 0;

    let mut futs = Vec::with_capacity(10);
    for i in 0..10 {
        futs.push(WaitFuture { id: i });
    }

    for fut in futs.iter() {
        assert!(fut.poll(&mut table, ()).is_pending());
    }

    assert_eq!(count, 0);

    if table.advance(0).is_some() {
        count += 1;
    }
    assert_eq!(count, 1);

    assert!(futs[0].poll(&mut table, ()).is_pending());

    if table.advance(0).is_some() {
        count += 1;
    }
    assert_eq!(count, 2);

    assert!(futs[0].poll(&mut table, ()).is_ready());

    for fut in futs.iter().skip(1) {
        assert!(fut.poll(&mut table, ()).is_pending());
    }

    assert_eq!(count, 2);
}

#[test]
fn wait_future_poll_inserts_missing_entry() {
    let mut table: WaitTable<u8> = WaitTable { entries: HashMap::new() };
    let fut = WaitFuture { id: 42 };
    assert!(matches!(fut.poll(&mut table, 9), Poll::Pending));
    let entry = table.entries.get(&42).unwrap();
    assert_eq!(entry.state, StateKind::Init);
    assert_eq!(entry.waker, Some(9));
}

#[test]
fn wait_future_advance_leaves_other_waiters_alone() {
    let mut table: WaitTable<u8> = WaitTable { entries: HashMap::new() };
    WaitFuture { id: 1 }.poll(&mut table, 1);
    WaitFuture { id: 2 }.poll(&mut table, 2);
    assert_eq!(table.advance(1), Some(1));
    let one = table.entries.get(&1).unwrap();
    assert_eq!(one.state, StateKind::Waiting);
    assert_eq!(one.waker, None);
    let two = table.entries.get(&2).unwrap();
    assert_eq!(two.state, StateKind::Init);
    assert_eq!(two.waker, Some(2));
}

#[test]
fn wait_future_crate_name() {
    assert_eq!(crate_name(), "wait-future");
}
