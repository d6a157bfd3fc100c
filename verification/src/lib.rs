//! Verified cores of a set of small async exercises: hand-written futures,
//! a waiter table, a tiny executor, a command driver and a mock transport.
//!
//! Each module holds the state that an exercise shares behind an
//! `Arc<Mutex<..>>`, and the decisions that its `poll` and completion
//! functions make. The functions return the wakers that must be woken as
//! plain values, so the caller (the async plumbing) performs the wake.

pub mod poll;
pub mod ids;
pub mod table_keys;
pub mod byte_buf;
pub mod manual_future;
pub mod wait_future;
pub mod mini_executor;
pub mod command_driver;
pub mod mock_transport;
