//! A client handle that queues commands for a background driver, and a
//! table of waiters that the driver completes.
//!
//! The command state and the waiter table are shared by the client handle,
//! the driver future and the waiter futures, each behind its own mutex; here
//! they are the two values `State` and `WaitTable` that each operation is
//! handed.

use vstd::prelude::*;
use std::collections::{HashMap, VecDeque};
use crate::poll::Poll;
use crate::table_keys::keys_of;
use crate::ids::{next_id, take_id};

verus! {

broadcast use vstd::std_specs::hash::group_hash_axioms;

/// A command from the client to the driver.
#[derive(Clone, Copy, Debug, PartialEq, Eq, Structural)]
pub enum DriverCommand {
    Close,
    Ping(usize),
}

/// The state shared by the client and the driver: queued commands, the
/// driver's waker, and whether the client has closed the driver.
pub struct State<W> {
    pub commands: VecDeque<DriverCommand>,
    pub waker: Option<W>,
    pub closed: bool,
}

/// One waiter: the waker it registered and whether it is finished.
pub struct FutureState<W> {
    pub waker: Option<W>,
    pub finished: bool,
}

/// The waiters, by id.
pub struct WaitTable<W> {
    pub entries: HashMap<usize, FutureState<W>>,
}

/// The client side: hands out ping ids from a counter.
pub struct ClientHandle {
    pub next: usize,
}

/// A future that waits until its ping is answered.
pub struct WaitFuture {
    pub id: usize,
}

/// The client refused a ping because the driver is closed.
#[derive(Clone, Copy, Debug, PartialEq, Eq, Structural)]
pub struct DriverClosed;

/// A finished waiter with no waker left.
pub open spec fn done<W>() -> FutureState<W> {
    FutureState { waker: None, finished: true }
}

/// The table after every waiter that `cmds` pings has been finished.
pub open spec fn finish_pinged<W>(m: Map<usize, FutureState<W>>, cmds: Seq<DriverCommand>) -> Map<
    usize,
    FutureState<W>,
> {
    Map::new(
        |k: usize| m.contains_key(k),
        |k: usize|
            if cmds.contains(DriverCommand::Ping(k)) {
                done()
            } else {
                m[k]
            },
    )
}

/// The table after every waiter has been finished.
pub open spec fn finish_all<W>(m: Map<usize, FutureState<W>>) -> Map<usize, FutureState<W>> {
    Map::new(|k: usize| m.contains_key(k), |k: usize| done())
}

/// Waiter `k` had a waker in `before` and has none in `after`: it was
/// taken out to be woken.
pub open spec fn taken<W>(before: Map<usize, FutureState<W>>, after: Map<usize, FutureState<W>>, k: usize) -> bool {
    &&& before.contains_key(k)
    &&& before[k].waker is Some
    &&& after.contains_key(k)
    &&& after[k].waker is None
}

/// `wakers` are the wakers taken between `before` and `after`, each once;
/// `ks` names the waiter each came from.
pub open spec fn wakes_keys<W>(
    before: Map<usize, FutureState<W>>,
    after: Map<usize, FutureState<W>>,
    wakers: Seq<W>,
    ks: Seq<usize>,
) -> bool {
    &&& ks.len() == wakers.len()
    &&& ks.no_duplicates()
    &&& forall|i: int|
        #![trigger ks[i]]
        0 <= i < ks.len() ==> taken(before, after, ks[i]) && before[ks[i]].waker == Some(
            wakers[i],
        )
    &&& forall|k: usize| #[trigger] taken(before, after, k) ==> ks.contains(k)
}

/// `wakers` are exactly the wakers taken between `before` and `after`, in
/// some order, each once.
pub open spec fn woken_from<W>(
    before: Map<usize, FutureState<W>>,
    after: Map<usize, FutureState<W>>,
    wakers: Seq<W>,
) -> bool {
    exists|ks: Seq<usize>| #[trigger] wakes_keys(before, after, wakers, ks)
}

/// The index of the first `Close` in `cmds`, or its length if none.
pub open spec fn first_close(cmds: Seq<DriverCommand>) -> int
    decreases cmds.len(),
{
    if cmds.len() == 0 {
        0
    } else if cmds[0] == DriverCommand::Close {
        0
    } else {
        1 + first_close(cmds.drop_first())
    }
}

/// `first_close` is where the first `Close` stands: everything before it
/// is a ping.
pub proof fn lemma_first_close(cmds: Seq<DriverCommand>)
    ensures
        0 <= first_close(cmds) <= cmds.len(),
        first_close(cmds) < cmds.len() ==> cmds[first_close(cmds)] == DriverCommand::Close,
        forall|j: int| 0 <= j < first_close(cmds) ==> #[trigger] cmds[j] is Ping,
    decreases cmds.len(),
{
    if cmds.len() > 0 && cmds[0] != DriverCommand::Close {
        lemma_first_close(cmds.drop_first());
        assert forall|j: int| 0 <= j < first_close(cmds) implies #[trigger] cmds[j] is Ping by {
            if j > 0 {
                assert(cmds[j] == cmds.drop_first()[j - 1]);
            }
        }
    }
}

/// Wakes taken in two steps compose, when the second step starts where
/// the first ended and no waker is put back in between.
proof fn lemma_wakes_compose<W>(
    a: Map<usize, FutureState<W>>,
    b: Map<usize, FutureState<W>>,
    c: Map<usize, FutureState<W>>,
    w1: Seq<W>,
    k1: Seq<usize>,
    w2: Seq<W>,
    k2: Seq<usize>,
)
    requires
        wakes_keys(a, b, w1, k1),
        wakes_keys(b, c, w2, k2),
        a.dom() == b.dom(),
        b.dom() == c.dom(),
        forall|k: usize| b.contains_key(k) && b[k].waker is Some ==> a[k].waker == b[k].waker,
        forall|k: usize| b.contains_key(k) && b[k].waker is None ==> c[k].waker is None,
    ensures
        wakes_keys(a, c, w1 + w2, k1 + k2),
{
    let ks = k1 + k2;
    let ws = w1 + w2;
    assert forall|i: int| 0 <= i < ks.len() implies taken(a, c, #[trigger] ks[i]) && a[ks[i]].waker
        == Some(ws[i]) by {
        if i < k1.len() {
            assert(ks[i] == k1[i]);
            assert(ws[i] == w1[i]);
        } else {
            assert(ks[i] == k2[i - k1.len()]);
            assert(ws[i] == w2[i - k1.len()]);
        }
    }
    assert forall|k: usize| #[trigger] taken(a, c, k) implies ks.contains(k) by {
        if b[k].waker is None {
            assert(taken(a, b, k));
            let j = choose|j: int| 0 <= j < k1.len() && k1[j] == k;
            assert(ks[j] == k);
        } else {
            assert(taken(b, c, k));
            let j = choose|j: int| 0 <= j < k2.len() && k2[j] == k;
            assert(ks[j + k1.len()] == k);
        }
    }
    assert forall|i: int, j: int| 0 <= i < ks.len() && 0 <= j < ks.len() && i != j implies ks[i]
        != ks[j] by {
        if i < k1.len() && j >= k1.len() {
            assert(ks[i] == k1[i]);
            assert(ks[j] == k2[j - k1.len()]);
            assert(taken(a, b, k1[i]));
            assert(taken(b, c, k2[j - k1.len()]));
        } else if i >= k1.len() && j < k1.len() {
            assert(ks[j] == k1[j]);
            assert(ks[i] == k2[i - k1.len()]);
            assert(taken(a, b, k1[j]));
            assert(taken(b, c, k2[i - k1.len()]));
        } else if i < k1.len() {
            assert(ks[i] == k1[i] && ks[j] == k1[j]);
        } else {
            assert(ks[i] == k2[i - k1.len()] && ks[j] == k2[j - k1.len()]);
        }
    }
}

impl<W> State<W> {
    /// A fresh driver state: no commands, no waker, open.
    pub fn new() -> (s: Self)
        ensures
            s.commands@ == Seq::<DriverCommand>::empty(),
            s.waker is None,
            !s.closed,
    {
        State { commands: VecDeque::new(), waker: None, closed: false }
    }
}

impl<W> WaitTable<W> {
    /// An empty waiter table.
    pub fn new() -> (t: Self)
        ensures
            t.entries@ == Map::<usize, FutureState<W>>::empty(),
    {
        WaitTable { entries: HashMap::new() }
    }
}

/// The driver's side of the waiter table.
pub struct Completer;

impl Completer {
    /// Finishes waiter `id` if it is in the table, taking its waker out to
    /// be woken; an unknown id changes nothing.
    pub fn advance<W>(table: &mut WaitTable<W>, id: usize) -> (woken: Option<W>)
        ensures
            old(table).entries@.contains_key(id) ==> {
                &&& final(table).entries@ == old(table).entries@.insert(id, done())
                &&& woken == old(table).entries@[id].waker
            },
            !old(table).entries@.contains_key(id) ==> {
                &&& final(table).entries@ == old(table).entries@
                &&& woken is None
            },
    {
        let found = table.entries.remove(&id);
        match found {
            Some(entry) => {
                table.entries.insert(id, FutureState { waker: None, finished: true });
                entry.waker
            },
            None => {
                proof {
                    assert(final(table).entries@ =~= old(table).entries@);
                }
                None
            },
        }
    }

    /// Finishes every waiter in the table and takes out every registered
    /// waker to be woken (in the table's iteration order).
    pub fn complete<W>(table: &mut WaitTable<W>) -> (woken: Vec<W>)
        ensures
            final(table).entries@ == finish_all(old(table).entries@),
            woken_from(old(table).entries@, final(table).entries@, woken@),
    {
        let ks = keys_of(&table.entries);
        let ghost old_m = table.entries@;
        let ghost mut wk: Seq<usize> = Seq::empty();
        let mut woken: Vec<W> = Vec::new();
        let mut i: usize = 0;
        while i < ks.len()
            invariant
                0 <= i <= ks@.len(),
                ks@.no_duplicates(),
                ks@.to_set() == old_m.dom(),
                table.entries@.dom() == old_m.dom(),
                forall|j: int| 0 <= j < i ==> table.entries@[#[trigger] ks@[j]] == done::<W>(),
                forall|k: usize|
                    #[trigger] old_m.contains_key(k) && !ks@.take(i as int).contains(k)
                        ==> table.entries@[k] == old_m[k],
                wakes_keys(old_m, table.entries@, woken@, wk),
                forall|j: int| 0 <= j < wk.len() ==> ks@.take(i as int).contains(#[trigger] wk[j]),
            decreases ks@.len() - i,
        {
            let k = ks[i];
            proof {
                assert(ks@.to_set().contains(k));
                assert(!ks@.take(i as int).contains(k)) by {
                    if ks@.take(i as int).contains(k) {
                        let j = choose|j: int| 0 <= j < i && ks@.take(i as int)[j] == k;
                        assert(ks@[j] == ks@[i as int]);
                    }
                }
            }
            let ghost cur = table.entries@;
            let ghost wk0 = wk;
            let entry = table.entries.remove(&k);
            let entry = entry.unwrap();
            if let Some(w) = entry.waker {
                woken.push(w);
                proof {
                    wk = wk.push(k);
                }
            }
            table.entries.insert(k, FutureState { waker: None, finished: true });
            proof {
                assert(ks@.take(i + 1) =~= ks@.take(i as int).push(k));
                assert(table.entries@.dom() =~= old_m.dom());
                assert forall|kk: usize|
                    #[trigger] old_m.contains_key(kk) && !ks@.take(i + 1).contains(kk)
                        implies table.entries@[kk] == old_m[kk] by {
                    assert(ks@.take(i + 1)[i as int] == k);
                    if ks@.take(i as int).contains(kk) {
                        let m = choose|m: int| 0 <= m < i && ks@.take(i as int)[m] == kk;
                        assert(ks@.take(i + 1)[m] == kk);
                    }
                }
                assert forall|j: int| 0 <= j < i + 1 implies table.entries@[#[trigger] ks@[j]]
                    == done::<W>() by {
                    if j < i {
                        assert(ks@[j] != k);
                    }
                }
                assert forall|kk: usize| #[trigger] taken(old_m, table.entries@, kk) implies wk.contains(kk) by {
                    if kk != k {
                        assert(taken(old_m, cur, kk));
                        let j = choose|j: int| 0 <= j < wk0.len() && wk0[j] == kk;
                        assert(wk[j] == kk);
                    } else {
                        assert(wk[wk.len() - 1] == k);
                    }
                }
                assert forall|j: int| 0 <= j < wk.len() implies ks@.take(i + 1).contains(#[trigger] wk[j]) by {
                    if j < wk0.len() {
                        assert(wk[j] == wk0[j]);
                        assert(ks@.take(i as int).contains(wk0[j]));
                        let m = choose|m: int| 0 <= m < i && ks@.take(i as int)[m] == wk0[j];
                        assert(ks@.take(i + 1)[m] == wk0[j]);
                    } else {
                        assert(ks@.take(i + 1)[i as int] == k);
                    }
                }
                assert forall|jj: int| 0 <= jj < wk.len() implies taken(old_m, table.entries@, #[trigger] wk[jj])
                    && old_m[wk[jj]].waker == Some(woken@[jj]) by {
                    if jj < wk0.len() {
                        assert(wk[jj] == wk0[jj]);
                        assert(taken(old_m, cur, wk0[jj]));
                    }
                }
                assert(wk.no_duplicates()) by {
                    assert forall|a: int, b: int| 0 <= a < wk.len() && 0 <= b < wk.len() && a != b implies wk[a] != wk[b] by {
                        if a < wk0.len() && b < wk0.len() {
                        } else if a < wk0.len() {
                            assert(ks@.take(i as int).contains(wk0[a]));
                        } else if b < wk0.len() {
                            assert(ks@.take(i as int).contains(wk0[b]));
                        }
                    }
                }
            }
            i = i + 1;
        }
        proof {
            assert(ks@.take(i as int) =~= ks@);
            assert forall|k: usize| old_m.contains_key(k) implies table.entries@[k] == done::<W>() by {
                assert(ks@.to_set().contains(k));
                let j = choose|j: int| 0 <= j < ks@.len() && ks@[j] == k;
            }
            assert(table.entries@ =~= finish_all(old_m));
            assert(wakes_keys(old_m, table.entries@, woken@, wk));
        }
        woken
    }
}

/// The background driver.
pub struct Driver;

impl Driver {
    /// Polls the driver: it takes commands from the front of the queue,
    /// finishing the waiter of each ping, until it meets a `Close` or the
    /// queue runs dry. At a `Close` it finishes every waiter and is ready;
    /// the commands behind that `Close` stay queued. On an empty queue it
    /// registers `waker` and is pending. The wakers taken from finished
    /// waiters are handed back to be woken.
    pub fn poll<W>(state: &mut State<W>, table: &mut WaitTable<W>, waker: W) -> (res: (
        Poll<()>,
        Vec<W>,
    ))
        ensures
            final(state).closed == old(state).closed,
            first_close(old(state).commands@) < old(state).commands@.len() ==> {
                &&& res.0 is Ready
                &&& final(state).commands@ == old(state).commands@.skip(
                    first_close(old(state).commands@) + 1,
                )
                &&& final(state).waker == old(state).waker
                &&& final(table).entries@ == finish_all(old(table).entries@)
            },
            first_close(old(state).commands@) >= old(state).commands@.len() ==> {
                &&& res.0 is Pending
                &&& final(state).commands@ == Seq::<DriverCommand>::empty()
                &&& final(state).waker == Some(waker)
                &&& final(table).entries@ == finish_pinged(
                    old(table).entries@,
                    old(state).commands@,
                )
            },
            woken_from(old(table).entries@, final(table).entries@, res.1@),
    {
        let ghost cmds = state.commands@;
        let ghost old_m = table.entries@;
        let ghost mut k: int = 0;
        let ghost mut wk: Seq<usize> = Seq::empty();
        let mut woken: Vec<W> = Vec::new();
        proof {
            lemma_first_close(cmds);
            assert(cmds.skip(0) =~= cmds);
            assert(finish_pinged(old_m, cmds.take(0)) =~= old_m);
        }
        loop
            invariant
                cmds == old(state).commands@,
                old_m == old(table).entries@,
                0 <= k <= first_close(cmds),
                first_close(cmds) <= cmds.len(),
                first_close(cmds) < cmds.len() ==> cmds[first_close(cmds)] == DriverCommand::Close,
                forall|j: int| 0 <= j < first_close(cmds) ==> #[trigger] cmds[j] is Ping,
                state.commands@ == cmds.skip(k),
                state.waker == old(state).waker,
                state.closed == old(state).closed,
                table.entries@ == finish_pinged(old_m, cmds.take(k)),
                wakes_keys(old_m, table.entries@, woken@, wk),
            decreases cmds.len() - k,
        {
            let command = state.commands.pop_front();
            match command {
                Some(DriverCommand::Ping(id)) => {
                    let ghost cur = table.entries@;
                    let ghost wk0 = wk;
                    proof {
                        assert(cmds[k] == DriverCommand::Ping(id));
                        assert(cmds.take(k + 1) =~= cmds.take(k).push(DriverCommand::Ping(id)));
                        assert(state.commands@ =~= cmds.skip(k + 1));
                    }
                    let w = Completer::advance(table, id);
                    if let Some(w) = w {
                        woken.push(w);
                        proof {
                            wk = wk.push(id);
                            assert(!cmds.take(k).contains(DriverCommand::Ping(id)));
                        }
                    }
                    proof {
                        assert forall|kk: usize|
                            #[trigger] cmds.take(k + 1).contains(DriverCommand::Ping(kk)) == (
                            cmds.take(k).contains(DriverCommand::Ping(kk)) || kk == id) by {
                            if cmds.take(k).contains(DriverCommand::Ping(kk)) {
                                let t = cmds.take(k);
                                let j = choose|j: int| 0 <= j < t.len() && #[trigger] t[j] == DriverCommand::Ping(kk);
                                assert(cmds.take(k + 1)[j] == DriverCommand::Ping(kk));
                            }
                            if kk == id {
                                assert(cmds.take(k + 1)[k] == DriverCommand::Ping(kk));
                            }
                            if cmds.take(k + 1).contains(DriverCommand::Ping(kk)) && kk != id {
                                let t = cmds.take(k + 1);
                                let j = choose|j: int| 0 <= j < t.len() && #[trigger] t[j] == DriverCommand::Ping(kk);
                                assert(j < k);
                                assert(cmds.take(k)[j] == DriverCommand::Ping(kk));
                            }
                        }
                        assert(table.entries@ =~= finish_pinged(old_m, cmds.take(k + 1)));
                        assert forall|kk: usize| #[trigger] taken(old_m, table.entries@, kk) implies wk.contains(kk) by {
                            if taken(old_m, cur, kk) {
                                let j = choose|j: int| 0 <= j < wk0.len() && wk0[j] == kk;
                                assert(wk[j] == kk);
                            } else {
                                assert(kk == id);
                                assert(wk.len() == wk0.len() + 1);
                                assert(wk[wk.len() - 1] == id);
                            }
                        }
                        assert forall|jj: int| 0 <= jj < wk.len() implies taken(old_m, table.entries@, #[trigger] wk[jj])
                            && old_m[wk[jj]].waker == Some(woken@[jj]) by {
                            if jj < wk0.len() {
                                assert(wk[jj] == wk0[jj]);
                                assert(taken(old_m, cur, wk0[jj]));
                            }
                        }
                        assert(wk.no_duplicates()) by {
                            assert forall|a: int, b: int| 0 <= a < wk.len() && 0 <= b < wk.len() && a != b implies wk[a] != wk[b] by {
                                if a < wk0.len() && b < wk0.len() {
                                } else if a < wk0.len() {
                                    assert(taken(old_m, cur, wk0[a]));
                                } else if b < wk0.len() {
                                    assert(taken(old_m, cur, wk0[b]));
                                }
                            }
                        }
                        k = k + 1;
                    }
                },
                Some(DriverCommand::Close) => {
                    let ghost mid = table.entries@;
                    let ghost w1 = woken@;
                    proof {
                        assert(cmds[k] == DriverCommand::Close);
                        assert(k == first_close(cmds));
                        assert(state.commands@ =~= cmds.skip(k + 1));
                    }
                    let mut rest = Completer::complete(table);
                    let ghost w2 = rest@;
                    woken.append(&mut rest);
                    proof {
                        let k2 = choose|k2: Seq<usize>| #[trigger] wakes_keys(mid, table.entries@, w2, k2);
                        assert(mid.dom() =~= old_m.dom());
                        assert(table.entries@.dom() =~= mid.dom());
                        lemma_wakes_compose(old_m, mid, table.entries@, w1, wk, w2, k2);
                        assert(woken@ =~= w1 + w2);
                        assert(wakes_keys(old_m, table.entries@, woken@, wk + k2));
                        assert(table.entries@ =~= finish_all(old_m));
                    }
                    return (Poll::Ready(()), woken);
                },
                None => {
                    proof {
                        assert(k == cmds.len());
                        assert(cmds.take(k) =~= cmds);
                        assert(state.commands@ =~= Seq::<DriverCommand>::empty());
                    }
                    state.waker = Some(waker);
                    return (Poll::Pending, woken);
                },
            }
        }
    }
}

impl ClientHandle {
    /// A client whose first ping id is 0.
    pub fn new() -> (c: Self)
        ensures
            c.next == 0,
    {
        ClientHandle { next: 0 }
    }

    /// Sends a ping. The next id is drawn from the counter in any case
    /// (wrapping at the top of `usize`). If the driver is closed the ping is
    /// refused and nothing else changes; otherwise a fresh unfinished waiter
    /// is put in the table under the id, a `Ping` is queued, and the
    /// driver's waker is taken out to be woken. The future waits on the id.
    pub fn ping<W>(&mut self, state: &mut State<W>, table: &mut WaitTable<W>) -> (res: (
        Result<WaitFuture, DriverClosed>,
        Option<W>,
    ))
        ensures
            final(self).next == next_id(old(self).next),
            old(state).closed ==> {
                &&& res.0 == Err::<WaitFuture, DriverClosed>(DriverClosed)
                &&& res.1 is None
                &&& *final(state) == *old(state)
                &&& final(table).entries@ == old(table).entries@
            },
            !old(state).closed ==> {
                &&& res.0 == Ok::<WaitFuture, DriverClosed>(WaitFuture { id: old(self).next })
                &&& res.1 == old(state).waker
                &&& final(table).entries@ == old(table).entries@.insert(
                    old(self).next,
                    FutureState { waker: None, finished: false },
                )
                &&& final(state).commands@ == old(state).commands@.push(
                    DriverCommand::Ping(old(self).next),
                )
                &&& final(state).waker is None
                &&& !final(state).closed
            },
    {
        let id = take_id(&mut self.next);
        if state.closed {
            return (Err(DriverClosed), None);
        }
        table.entries.insert(id, FutureState { waker: None, finished: false });
        state.commands.push_back(DriverCommand::Ping(id));
        let woken = state.waker.take();
        (Ok(WaitFuture { id }), woken)
    }

    /// Closes the driver. Closing twice does nothing; the first time the
    /// state is marked closed, a `Close` is queued, and the driver's waker is
    /// taken out to be woken.
    pub fn close<W>(state: &mut State<W>) -> (woken: Option<W>)
        ensures
            old(state).closed ==> {
                &&& *final(state) == *old(state)
                &&& woken is None
            },
            !old(state).closed ==> {
                &&& final(state).closed
                &&& final(state).commands@ == old(state).commands@.push(DriverCommand::Close)
                &&& final(state).waker is None
                &&& woken == old(state).waker
            },
    {
        if state.closed {
            return None;
        }
        state.closed = true;
        state.commands.push_back(DriverCommand::Close);
        state.waker.take()
    }
}

impl WaitFuture {
    /// Polls the future: ready once its waiter is finished (nothing
    /// changes); otherwise it registers `waker` on its waiter and is
    /// pending. The waiter must be in the table.
    pub fn poll<W>(&self, table: &mut WaitTable<W>, waker: W) -> (r: Poll<()>)
        requires
            old(table).entries@.contains_key(self.id),
        ensures
            old(table).entries@[self.id].finished ==> {
                &&& r is Ready
                &&& final(table).entries@ == old(table).entries@
            },
            !old(table).entries@[self.id].finished ==> {
                &&& r is Pending
                &&& final(table).entries@ == old(table).entries@.insert(
                    self.id,
                    FutureState { waker: Some(waker), finished: false },
                )
            },
    {
        let entry = table.entries.remove(&self.id);
        let entry = entry.unwrap();
        if entry.finished {
            table.entries.insert(self.id, entry);
            proof {
                assert(final(table).entries@ =~= old(table).entries@);
            }
            Poll::Ready(())
        } else {
            table.entries.insert(self.id, FutureState { waker: Some(waker), finished: false });
            Poll::Pending
        }
    }
}

/// Once the client has closed the driver, the driver's next poll is
/// ready: `close` queues a `Close` behind whatever was queued, so the queue
/// holds a `Close` for the driver to reach.
pub proof fn lemma_close_readies_driver(cmds: Seq<DriverCommand>)
    ensures
        first_close(cmds.push(DriverCommand::Close)) < cmds.push(DriverCommand::Close).len(),
{
    let c = cmds.push(DriverCommand::Close);
    lemma_first_close(c);
    if first_close(c) == c.len() {
        assert(c[c.len() - 1] is Ping);
    }
}

/// Whichever way a driver poll ends, every waiter that a queued ping names
/// is finished afterwards, with no waker left.
pub proof fn lemma_driver_finishes_pinged<W>(cmds: Seq<DriverCommand>, m: Map<usize, FutureState<W>>, id: usize)
    requires
        m.contains_key(id),
        cmds.contains(DriverCommand::Ping(id)),
    ensures
        first_close(cmds) < cmds.len() ==> finish_all(m)[id] == done::<W>(),
        first_close(cmds) >= cmds.len() ==> finish_pinged(m, cmds)[id] == done::<W>(),
{
}

/// The exercise's name.
pub fn crate_name() -> (name: &'static str)
    ensures
        name@ == "command-driver"@,
{
    "command-driver"
}

} // verus!
