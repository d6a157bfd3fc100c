use async_experiments::manual_future::{crate_name, State, StateKind};
use async_experiments::poll::Poll;

#[test]
fn test_happy() {
    let mut state: State<u32> = State::new();
    let waker = 7u32;
    loop {
        match state.poll(waker) {
            Poll::Ready(_) => break,
            Poll::Pending => {
                let _ = state.advance();
            }
        }
    }
}

#[test]
fn manual_future_ready_on_third_poll() {
    let mut state: State<u32> = State::new();
    let mut polls = 0;
    loop {
        polls += 1;
        match state.poll(polls) {
            Poll::Ready(_) => break,
            Poll::Pending => {
                let _ = state.advance();
            }
        }
    }
    assert_eq!(polls, 3);
    assert_eq!(state.inner, StateKind::Completed);
}

#[test]
fn manual_future_pending_registers_waker() {
    let mut state: State<u32> = State::new();
    assert!(state.poll(1).is_pending());
    assert_eq!(state.waker, Some(1));
    assert!(state.poll(2).is_pending());
    assert_eq!(state.waker, Some(2));
    assert_eq!(state.inner, StateKind::Init);
}

#[test]
fn manual_future_advance_hands_back_waker() {
    let mut state: State<u32> = State::new();
    assert_eq!(state.advance(), None);
    assert_eq!(state.inner, StateKind::Waiting);
    assert!(state.poll(5).is_pending());
    assert_eq!(state.advance(), Some(5));
    assert_eq!(state.inner, StateKind::Completed);
    assert_eq!(state.waker, None);
    assert!(state.poll(6).is_ready());
    assert_eq!(state.waker, None);
}

#[test]
fn manual_future_crate_name() {
    assert_eq!(crate_name(), "manual-future");
}
