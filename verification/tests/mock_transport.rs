use std::collections::{HashMap, VecDeque};

use async_experiments::mock_transport::{
    crate_name, ClientHandle, Driver, DriverFuture, DriverState, Transport, TransportError,
    TransportSharedState, TransportState, WaitTable,
};
use async_experiments::poll::Poll;
use bytes::{BufMut, Bytes, BytesMut};

fn transport(max_per_request: usize, max_buf_size: usize) -> Transport<u32> {
    Transport {
        shared: TransportSharedState {
            waker: None,
            state: TransportState::Idle,
            incoming_read_buf: BytesMut::new(),
            pending_write_buf: BytesMut::new(),
            flushed_out_buf: BytesMut::new(),
        },
        max_per_request,
        max_buf_size,
    }
}

fn driver_state(t: Transport<u32>) -> DriverState<u32> {
    DriverState {
        queue: VecDeque::new(),
        waker: None,
        closed: false,
        transport: t,
        outgoing_buf: VecDeque::new(),
        current_send: None,
        send_offset: 0,
        current_read: BytesMut::new(),
    }
}

fn table() -> WaitTable<u32> {
    WaitTable {
        next: 0,
        entries: HashMap::new(),
    }
}

#[test]
fn mock_transport_test_happy() {
    let mut driver_state = driver_state(transport(1024, 8192));
    let mut wait_table = table();

    let waker = 1u32;
    let (fut, _) = ClientHandle::send(&mut driver_state, &mut wait_table, Bytes::from_static(b"Hello"));
    let fut: DriverFuture = fut.unwrap();

    assert!(matches!(fut.poll(&mut wait_table, waker), Poll::Pending));

    assert!(matches!(
        Driver::poll(&mut driver_state, &mut wait_table, &waker).poll,
        Poll::Pending
    ));
    driver_state
        .transport
        .shared
        .incoming_read_buf
        .put_slice(b"Hello there");
    assert!(matches!(
        Driver::poll(&mut driver_state, &mut wait_table, &waker).poll,
        Poll::Pending
    ));
    match fut.poll(&mut wait_table, waker) {
        Poll::Ready(Some(bytes)) => {
            assert_eq!(bytes, Bytes::from_static(b"Hello there"));
        }
        other => panic!("unexpected poll result: {other:?}"),
    }
}

#[test]
fn mock_transport_sent_message_is_flushed_in_order() {
    let mut ds = driver_state(transport(2, 64));
    let mut wt = table();
    let _ = ClientHandle::send(&mut ds, &mut wt, Bytes::from_static(b"abcde"));
    let _ = ClientHandle::send(&mut ds, &mut wt, Bytes::from_static(b"xyz"));
    let first = Driver::poll(&mut ds, &mut wt, &0);
    assert!(first.wake_self);
    let second = Driver::poll(&mut ds, &mut wt, &0);
    assert!(matches!(second.poll, Poll::Pending));
    assert_eq!(&ds.transport.shared.flushed_out_buf[..], b"abcdexyz");
    assert!(ds.transport.shared.pending_write_buf.is_empty());
    assert!(ds.current_send.is_none());
}

#[test]
fn mock_transport_full_write_buffer_keeps_offset() {
    let mut ds = driver_state(transport(4, 6));
    let mut wt = table();
    let _ = ClientHandle::send(&mut ds, &mut wt, Bytes::from_static(b"0123456789"));
    let step = Driver::poll(&mut ds, &mut wt, &5);
    assert!(matches!(step.poll, Poll::Pending));
    assert_eq!(&ds.transport.shared.pending_write_buf[..], b"012345");
    assert_eq!(ds.send_offset, 6);
    assert!(ds.transport.shared.flushed_out_buf.is_empty());
    assert_eq!(ds.transport.shared.waker, Some(5));
}

#[test]
fn mock_transport_poll_write_limits() {
    let mut t = transport(3, 5);
    assert!(matches!(t.poll_write(&1, b"abcdef"), Poll::Ready(Ok(3))));
    assert!(matches!(t.poll_write(&1, b"defg"), Poll::Ready(Ok(2))));
    assert!(matches!(t.poll_write(&2, b"g"), Poll::Pending));
    assert_eq!(t.shared.waker, Some(2));
    assert_eq!(&t.shared.pending_write_buf[..], b"abcde");
    assert!(matches!(t.poll_flush(), Poll::Ready(Ok(()))));
    assert_eq!(&t.shared.flushed_out_buf[..], b"abcde");
    assert!(t.shared.pending_write_buf.is_empty());
}

#[test]
fn mock_transport_closed_transport_errors() {
    let mut t = transport(3, 5);
    assert!(matches!(t.poll_close(), Poll::Ready(Ok(()))));
    assert!(matches!(
        t.poll_write(&1, b"abc"),
        Poll::Ready(Err(TransportError::ConnectionRefused))
    ));
    assert!(matches!(
        t.poll_flush(),
        Poll::Ready(Err(TransportError::Busy))
    ));
    assert!(matches!(t.poll_close(), Poll::Ready(Ok(()))));
}

#[test]
fn mock_transport_poll_read_moves_bytes() {
    let mut t = transport(3, 5);
    let mut buf = [0u8; 4];
    assert!(matches!(t.poll_read(&9, &mut buf), Poll::Pending));
    assert_eq!(t.shared.waker, Some(9));
    t.shared.incoming_read_buf.put_slice(b"hello");
    assert!(matches!(t.poll_read(&9, &mut buf), Poll::Ready(Ok(4))));
    assert_eq!(&buf, b"hell");
    assert!(matches!(t.poll_read(&9, &mut buf), Poll::Ready(Ok(1))));
    assert_eq!(&buf, b"oell");
    t.shared.state = TransportState::Closed;
    assert!(matches!(t.poll_read(&9, &mut buf), Poll::Ready(Ok(0))));
}

#[test]
fn mock_transport_message_goes_to_oldest_waiter() {
    let mut ds = driver_state(transport(16, 64));
    let mut wt = table();
    let a = ClientHandle::send(&mut ds, &mut wt, Bytes::from_static(b"a")).0.unwrap();
    let b = ClientHandle::send(&mut ds, &mut wt, Bytes::from_static(b"b")).0.unwrap();
    assert!(a.poll(&mut wt, 11).is_pending());
    assert!(b.poll(&mut wt, 12).is_pending());
    ds.transport.shared.incoming_read_buf.put_slice(b"reply");
    let step = Driver::poll(&mut ds, &mut wt, &0);
    assert_eq!(step.woken, Some(11));
    assert!(b.poll(&mut wt, 12).is_pending());
    match a.poll(&mut wt, 11) {
        Poll::Ready(Some(bytes)) => assert_eq!(&bytes[..], b"reply"),
        other => panic!("unexpected poll result: {other:?}"),
    }
    assert!(matches!(a.poll(&mut wt, 11), Poll::Ready(None)));
}

#[test]
fn mock_transport_send_after_close_is_refused() {
    let mut ds = driver_state(transport(16, 64));
    let mut wt = table();
    ds.closed = true;
    let (res, woken) = ClientHandle::send(&mut ds, &mut wt, Bytes::from_static(b"a"));
    assert!(matches!(res, Err(TransportError::ConnectionRefused)));
    assert!(woken.is_none());
    assert_eq!(wt.next, 0);
    assert!(ds.queue.is_empty());
}

#[test]
fn mock_transport_closed_driver_is_ready() {
    let mut ds = driver_state(transport(16, 64));
    let mut wt = table();
    let _ = ClientHandle::send(&mut ds, &mut wt, Bytes::from_static(b"bye"));
    ds.enqueue(async_experiments::mock_transport::DriverCommand::Close);
    let step = Driver::poll(&mut ds, &mut wt, &0);
    assert!(matches!(step.poll, Poll::Ready(Ok(()))));
    assert!(ds.closed);
    assert_eq!(&ds.transport.shared.flushed_out_buf[..], b"bye");
}

#[test]
fn mock_transport_closed_transport_fails_driver() {
    let mut ds = driver_state(transport(16, 64));
    let mut wt = table();
    ds.transport.shared.state = TransportState::Closed;
    let _ = ClientHandle::send(&mut ds, &mut wt, Bytes::from_static(b"x"));
    let step = Driver::poll(&mut ds, &mut wt, &0);
    assert!(matches!(
        step.poll,
        Poll::Ready(Err(TransportError::ConnectionRefused))
    ));
}

#[test]
fn mock_transport_crate_name() {
    assert_eq!(crate_name(), "mock-transport");
}
