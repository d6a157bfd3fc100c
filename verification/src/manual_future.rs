//! A future written by hand over a three-step state, and the completer
//! that drives it forward.

use vstd::prelude::*;
use crate::poll::Poll;

verus! {

/// The life cycle of the hand-written future.
#[derive(Clone, Copy, Debug, PartialEq, Eq, Structural)]
pub enum StateKind {
    Init,
    Waiting,
    Completed,
}

/// The state that one completer step moves to.
pub open spec fn next_kind(k: StateKind) -> StateKind {
    match k {
        StateKind::Init => StateKind::Waiting,
        StateKind::Waiting => StateKind::Completed,
        StateKind::Completed => StateKind::Completed,
    }
}

/// The state shared between the future and its completer: where the
/// future stands, and the waker it registered when it last returned
/// `Pending`.
pub struct State<W> {
    pub waker: Option<W>,
    pub inner: StateKind,
}

impl<W> State<W> {
    /// A fresh state: not started, no waker registered.
    pub fn new() -> (s: Self)
        ensures
            s.waker is None,
            s.inner == StateKind::Init,
    {
        State { waker: None, inner: StateKind::Init }
    }

    /// Polls the future. Until the state is `Completed` the future is
    /// pending and registers `waker` (replacing any earlier one) before
    /// answering; once completed it is ready and nothing changes.
    pub fn poll(&mut self, waker: W) -> (r: Poll<()>)
        ensures
            old(self).inner == StateKind::Completed ==> {
                &&& r is Ready
                &&& *final(self) == *old(self)
            },
            old(self).inner != StateKind::Completed ==> {
                &&& r is Pending
                &&& final(self).inner == old(self).inner
                &&& final(self).waker == Some(waker)
            },
    {
        match self.inner {
            StateKind::Init | StateKind::Waiting => {
                self.waker = Some(waker);
                Poll::Pending
            },
            StateKind::Completed => Poll::Ready(()),
        }
    }

    /// The completer's step: `Init` becomes `Waiting`, `Waiting` becomes
    /// `Completed`, and the registered waker is taken out and handed back
    /// to be woken. Advancing a completed future is a caller error.
    pub fn advance(&mut self) -> (woken: Option<W>)
        requires
            old(self).inner != StateKind::Completed,
        ensures
            final(self).inner == next_kind(old(self).inner),
            final(self).waker is None,
            woken == old(self).waker,
    {
        match self.inner {
            StateKind::Init => {
                self.inner = StateKind::Waiting;
            },
            StateKind::Waiting => {
                self.inner = StateKind::Completed;
            },
            StateKind::Completed => {},
        }
        self.waker.take()
    }
}

/// Two completer steps complete any state, and a completed state stays so.
pub proof fn lemma_two_advances_complete(k: StateKind)
    ensures
        next_kind(next_kind(k)) == StateKind::Completed,
        next_kind(StateKind::Completed) == StateKind::Completed,
{
}

/// The exercise's name.
pub fn crate_name() -> (name: &'static str)
    ensures
        name@ == "manual-future"@,
{
    "manual-future"
}

} // verus!
