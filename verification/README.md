# async_experiments

Verified cores of five small async exercises, written in Verus.

- `src/manual_future.rs`: a hand-written future over an `Init` / `Waiting` /
  `Completed` state and the completer that advances it.
- `src/wait_future.rs`: a table of waiters keyed by id.
- `src/mini_executor.rs`: a run queue, its tasks, and wakers that requeue tasks.
- `src/command_driver.rs`: a client that queues pings and a close for a
  background driver, and the waiter table the driver completes.
- `src/mock_transport.rs`: a driver over a mock transport with partial reads,
  partial writes, a bounded write buffer and flush, on `bytes` buffers
  (`src/byte_buf.rs` states what the library relies on from that crate).

Each operation takes the shared state it works on and returns the wakers to
wake, so the decisions are verified and the waking is left to the caller.
`app/` holds that plumbing: the `Future` impls over `Arc<Mutex<..>>` and
`std::task::Waker`, and the mapping of errors to `std::io::Error`.
