use async_experiments::command_driver::{
    crate_name, ClientHandle, Completer, Driver, DriverClosed, DriverCommand, State, WaitTable,
};
use async_experiments::poll::Poll;

fn new_pair() -> (ClientHandle, State<u32>, WaitTable<u32>) {
    (ClientHandle::new(), State::new(), WaitTable::new())
}

#[test]
fn ping_is_pending_before_driver_runs() {
    let (mut client, mut state, mut table) = new_pair();
    let (fut, _) = client.ping(&mut state, &mut table);
    let fut = fut.unwrap();

    let res = fut.poll(&mut table, 1);

    assert!(matches!(res, Poll::Pending));
}

#[test]
fn ping_is_ready_after_driver_runs() {
    let (mut client, mut state, mut table) = new_pair();
    let (fut, _) = client.ping(&mut state, &mut table);
    let fut = fut.unwrap();

    assert!(matches!(fut.poll(&mut table, 1), Poll::Pending));

    assert!(matches!(Driver::poll(&mut state, &mut table, 2).0, Poll::Pending));

    assert!(matches!(fut.poll(&mut table, 1), Poll::Ready(())));
}

#[test]
fn close_completes_driver() {
    let (_client, mut state, mut table) = new_pair();

    ClientHandle::close(&mut state);

    assert!(matches!(
        Driver::poll(&mut state, &mut table, 2).0,
        Poll::Ready(())
    ));
}

#[test]
fn ping_after_close_returns_error() {
    let (mut client, mut state, mut table) = new_pair();

    ClientHandle::close(&mut state);

    let err = client.ping(&mut state, &mut table).0.err().unwrap();

    assert_eq!(err, DriverClosed);
}

#[test]
fn close_completes_pending_waiter() {
    let (mut client, mut state, mut table) = new_pair();

    let (fut, _) = client.ping(&mut state, &mut table);
    let fut = fut.unwrap();
    ClientHandle::close(&mut state);

    assert!(matches!(fut.poll(&mut table, 1), Poll::Pending));

    assert!(matches!(
        Driver::poll(&mut state, &mut table, 2).0,
        Poll::Ready(())
    ));

    assert!(matches!(fut.poll(&mut table, 1), Poll::Ready(())));
}

#[test]
fn command_driver_ping_ids_count_up_even_when_refused() {
    let (mut client, mut state, mut table) = new_pair();
    let a = client.ping(&mut state, &mut table).0.unwrap();
    let b = client.ping(&mut state, &mut table).0.unwrap();
    assert_eq!(a.id, 0);
    assert_eq!(b.id, 1);
    ClientHandle::close(&mut state);
    assert!(client.ping(&mut state, &mut table).0.is_err());
    assert_eq!(client.next, 3);
    assert_eq!(table.entries.len(), 2);
}

#[test]
fn command_driver_ping_wakes_waiting_driver() {
    let (mut client, mut state, mut table) = new_pair();
    let (res, woken) = Driver::poll(&mut state, &mut table, 8);
    assert!(matches!(res, Poll::Pending));
    assert!(woken.is_empty());
    assert_eq!(state.waker, Some(8));
    let (_, woken) = client.ping(&mut state, &mut table);
    assert_eq!(woken, Some(8));
    assert_eq!(state.waker, None);
}

#[test]
fn command_driver_driver_wakes_waiters_it_finishes() {
    let (mut client, mut state, mut table) = new_pair();
    let a = client.ping(&mut state, &mut table).0.unwrap();
    let b = client.ping(&mut state, &mut table).0.unwrap();
    assert!(a.poll(&mut table, 10).is_pending());
    assert!(b.poll(&mut table, 11).is_pending());
    let (res, mut woken) = Driver::poll(&mut state, &mut table, 2);
    assert!(res.is_pending());
    woken.sort();
    assert_eq!(woken, vec![10, 11]);
    assert!(a.poll(&mut table, 10).is_ready());
    assert!(b.poll(&mut table, 11).is_ready());
}

#[test]
fn command_driver_close_is_idempotent() {
    let (_client, mut state, _table) = new_pair();
    assert_eq!(ClientHandle::close(&mut state), None);
    assert_eq!(ClientHandle::close(&mut state), None);
    assert_eq!(state.commands.len(), 1);
    assert!(state.closed);
}

#[test]
fn command_driver_commands_after_close_stay_queued() {
    let mut state: State<u32> = State::new();
    let mut table: WaitTable<u32> = WaitTable::new();
    state.commands.push_back(DriverCommand::Close);
    state.commands.push_back(DriverCommand::Ping(5));
    let (res, _) = Driver::poll(&mut state, &mut table, 1);
    assert!(res.is_ready());
    assert_eq!(state.commands.len(), 1);
    assert_eq!(state.commands[0], DriverCommand::Ping(5));
}

#[test]
fn command_driver_complete_finishes_every_waiter() {
    let (mut client, mut state, mut table) = new_pair();
    let a = client.ping(&mut state, &mut table).0.unwrap();
    let _b = client.ping(&mut state, &mut table).0.unwrap();
    assert!(a.poll(&mut table, 3).is_pending());
    let woken = Completer::complete(&mut table);
    assert_eq!(woken, vec![3]);
    for entry in table.entries.values() {
        assert!(entry.finished);
        assert!(entry.waker.is_none());
    }
    assert_eq!(Completer::advance(&mut table, 77), None);
}

#[test]
fn command_driver_crate_name() {
    assert_eq!(crate_name(), "command-driver");
}
