//! A table of waiters keyed by id: each future waits on its own entry, and
//! the completer advances one entry at a time.

use vstd::prelude::*;
use std::collections::HashMap;
use crate::poll::Poll;
use crate::manual_future::{StateKind, next_kind};

verus! {

broadcast use vstd::std_specs::hash::group_hash_axioms;

/// One waiter: where it stands and the waker it last registered.
pub struct WaitEntry<W> {
    pub state: StateKind,
    pub waker: Option<W>,
}

/// The waiters, by id.
pub struct WaitTable<W> {
    pub entries: HashMap<i32, WaitEntry<W>>,
}

/// The state of waiter `id`, where an id not yet in the table counts as
/// `Init` (polling inserts it that way).
pub open spec fn entry_state<W>(m: Map<i32, WaitEntry<W>>, id: i32) -> StateKind {
    if m.contains_key(id) {
        m[id].state
    } else {
        StateKind::Init
    }
}

/// A future that waits until its entry in the table is completed.
pub struct WaitFuture {
    pub id: i32,
}

impl<W> WaitTable<W> {
    /// The completer's step on waiter `id`: `Init` becomes `Waiting`,
    /// `Waiting` becomes `Completed`; the waiter's registered waker is taken
    /// out and handed back to be woken. Every other waiter is left as it
    /// was. The id must be in the table and not yet completed.
    pub fn advance(&mut self, id: i32) -> (woken: Option<W>)
        requires
            old(self).entries@.contains_key(id),
            old(self).entries@[id].state != StateKind::Completed,
        ensures
            final(self).entries@ == old(self).entries@.insert(
                id,
                WaitEntry { state: next_kind(old(self).entries@[id].state), waker: None },
            ),
            woken == old(self).entries@[id].waker,
    {
        let entry = self.entries.remove(&id);
        let mut entry = entry.unwrap();
        let woken = entry.waker.take();
        entry.state = match entry.state {
            StateKind::Init => StateKind::Waiting,
            _ => StateKind::Completed,
        };
        self.entries.insert(id, entry);
        woken
    }
}

impl WaitFuture {
    /// Polls the future: its entry is created as `Init` if missing; while
    /// the entry is not completed the future registers `waker` there and is
    /// pending; once completed it is ready and the table is unchanged.
    pub fn poll<W>(&self, table: &mut WaitTable<W>, waker: W) -> (r: Poll<()>)
        ensures
            entry_state(old(table).entries@, self.id) == StateKind::Completed ==> {
                &&& r is Ready
                &&& final(table).entries@ == old(table).entries@
            },
            entry_state(old(table).entries@, self.id) != StateKind::Completed ==> {
                &&& r is Pending
                &&& final(table).entries@ == old(table).entries@.insert(
                    self.id,
                    WaitEntry { state: entry_state(old(table).entries@, self.id), waker: Some(waker) },
                )
            },
    {
        let found = table.entries.remove(&self.id);
        let mut entry = match found {
            Some(e) => e,
            None => WaitEntry { state: StateKind::Init, waker: None },
        };
        match entry.state {
            StateKind::Completed => {
                table.entries.insert(self.id, entry);
                proof {
                    assert(final(table).entries@ =~= old(table).entries@);
                }
                Poll::Ready(())
            },
            _ => {
                entry.waker = Some(waker);
                table.entries.insert(self.id, entry);
                Poll::Pending
            },
        }
    }
}

/// The exercise's name.
pub fn crate_name() -> (name: &'static str)
    ensures
        name@ == "wait-future"@,
{
    "wait-future"
}

} // verus!
