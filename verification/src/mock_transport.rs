//! A driver over a mock byte transport: the client queues data, the
//! driver writes it through the transport (partial writes, a bounded
//! write buffer, flush) and reads whatever the peer sent, handing it to the
//! oldest waiter.

use vstd::prelude::*;
use std::collections::{HashMap, VecDeque};
use bytes::{Buf, BufMut, Bytes, BytesMut};
use crate::poll::Poll;
use crate::byte_buf::{bytes_view, bytes_mut_view};
use crate::table_keys::keys_of;
use crate::ids::{next_id, take_id};

verus! {

broadcast use vstd::std_specs::hash::group_hash_axioms;

/// Why a transport or driver operation failed.
#[derive(Clone, Copy, Debug, PartialEq, Eq, Structural)]
pub enum TransportError {
    /// The transport or driver is closed.
    ConnectionRefused,
    /// A flush found the transport not idle.
    Busy,
    /// A write accepted no bytes.
    WriteZero,
}

/// Where the transport stands.
#[derive(Clone, Copy, Debug, PartialEq, Eq, Structural)]
pub enum TransportState {
    Idle,
    Writing,
    Closed,
}

/// The transport's buffers, shared with the peer on the other side: what
/// the peer sent and is not yet read, what was written and not yet
/// flushed, and what was flushed out to the peer.
pub struct TransportSharedState<W> {
    pub waker: Option<W>,
    pub state: TransportState,
    pub incoming_read_buf: BytesMut,
    pub pending_write_buf: BytesMut,
    pub flushed_out_buf: BytesMut,
}

/// A mock transport: at most `max_per_request` bytes are accepted per
/// write, and at most `max_buf_size` bytes wait unflushed.
pub struct Transport<W> {
    pub shared: TransportSharedState<W>,
    pub max_per_request: usize,
    pub max_buf_size: usize,
}

/// The bytes still unread.
pub open spec fn incoming<W>(t: Transport<W>) -> Seq<u8> {
    bytes_mut_view(t.shared.incoming_read_buf)
}

/// The bytes written and not yet flushed.
pub open spec fn pending<W>(t: Transport<W>) -> Seq<u8> {
    bytes_mut_view(t.shared.pending_write_buf)
}

/// The bytes flushed out to the peer.
pub open spec fn flushed<W>(t: Transport<W>) -> Seq<u8> {
    bytes_mut_view(t.shared.flushed_out_buf)
}

/// `after` is `before` with the waker replaced by a clone of `waker`.
pub open spec fn registers<W: Clone>(before: Transport<W>, after: Transport<W>, waker: W) -> bool {
    &&& after.shared.waker matches Some(w) && cloned(waker, w)
    &&& after.shared.state == before.shared.state
    &&& after.shared.incoming_read_buf == before.shared.incoming_read_buf
    &&& after.shared.pending_write_buf == before.shared.pending_write_buf
    &&& after.shared.flushed_out_buf == before.shared.flushed_out_buf
    &&& after.max_per_request == before.max_per_request
    &&& after.max_buf_size == before.max_buf_size
}

/// The settings and the waker are unchanged, and the state is as given.
pub open spec fn same_setup<W>(before: Transport<W>, after: Transport<W>) -> bool {
    &&& after.shared.waker == before.shared.waker
    &&& after.max_per_request == before.max_per_request
    &&& after.max_buf_size == before.max_buf_size
}

/// The room left in the write buffer.
pub open spec fn room<W>(t: Transport<W>) -> int {
    if pending(t).len() >= t.max_buf_size {
        0
    } else {
        t.max_buf_size - pending(t).len()
    }
}

/// How many bytes of a write of `len` bytes are accepted: bounded by the
/// room left in the write buffer and by the per-request limit.
pub open spec fn write_size<W>(t: Transport<W>, len: int) -> int {
    vstd::math::min(vstd::math::min(len, room(t)), t.max_per_request as int)
}

/// How many of `len` bytes repeated writes get accepted before the write
/// buffer is full (none at all when a request may carry no bytes).
pub open spec fn total_write<W>(t: Transport<W>, len: int) -> int {
    if t.max_per_request == 0 {
        0
    } else {
        vstd::math::min(len, room(t))
    }
}

/// The smaller of two lengths.
fn min_usize(a: usize, b: usize) -> (m: usize)
    ensures
        m == vstd::math::min(a as int, b as int),
{
    if a <= b {
        a
    } else {
        b
    }
}

impl<W: Clone> Transport<W> {
    /// Reads into `buf`. While idle, up to `buf.len()` unread bytes are
    /// moved to the front of `buf`; with nothing to read the transport
    /// registers `waker` and is pending. Once closed, whatever is left is
    /// read the same way, and a read of 0 bytes means the end. While a
    /// flush is in progress the read is pending.
    pub fn poll_read(&mut self, waker: &W, buf: &mut [u8]) -> (r: Poll<Result<usize, TransportError>>)
        ensures
            ({
                let n = vstd::math::min(old(buf)@.len() as int, incoming(*old(self)).len() as int);
                let reads = old(self).shared.state == TransportState::Closed || (
                old(self).shared.state == TransportState::Idle && n > 0);
                &&& reads ==> {
                    &&& r == Poll::<Result<usize, TransportError>>::Ready(Ok(n as usize))
                    &&& final(buf)@ == incoming(*old(self)).take(n) + old(buf)@.skip(n)
                    &&& incoming(*final(self)) == incoming(*old(self)).skip(n)
                    &&& final(self).shared.state == old(self).shared.state
                    &&& final(self).shared.pending_write_buf == old(self).shared.pending_write_buf
                    &&& final(self).shared.flushed_out_buf == old(self).shared.flushed_out_buf
                    &&& same_setup(*old(self), *final(self))
                }
                &&& !reads ==> {
                    &&& r is Pending
                    &&& final(buf)@ == old(buf)@
                    &&& registers(*old(self), *final(self), *waker)
                }
            }),
    {
        match self.shared.state {
            TransportState::Writing => {
                self.shared.waker = Some(waker.clone());
                Poll::Pending
            },
            _ => {
                let n = min_usize(buf.len(), self.shared.incoming_read_buf.len());
                if n == 0 && self.shared.state == TransportState::Idle {
                    self.shared.waker = Some(waker.clone());
                    return Poll::Pending;
                }
                let src: &[u8] = self.shared.incoming_read_buf.as_ref();
                let ghost b0 = buf@;
                let mut i: usize = 0;
                while i < n
                    invariant
                        0 <= i <= n,
                        n <= buf@.len(),
                        n <= src@.len(),
                        buf@.len() == b0.len(),
                        forall|j: int| 0 <= j < i ==> buf@[j] == src@[j],
                        forall|j: int| i <= j < buf@.len() ==> buf@[j] == b0[j],
                    decreases n - i,
                {
                    buf[i] = src[i];
                    i = i + 1;
                }
                proof {
                    assert(buf@ =~= src@.take(n as int) + b0.skip(n as int));
                }
                self.shared.incoming_read_buf.advance(n);
                Poll::Ready(Ok(n))
            },
        }
    }

    /// Writes from `buf`. While idle, the first `write_size` bytes of `buf`
    /// join the write buffer; when that is none, the transport registers
    /// `waker` and is pending. A closed transport refuses the write; while
    /// a flush is in progress the write is pending.
    pub fn poll_write(&mut self, waker: &W, buf: &[u8]) -> (r: Poll<Result<usize, TransportError>>)
        requires
            old(self).max_buf_size <= isize::MAX,
        ensures
            ({
                let n = write_size(*old(self), buf@.len() as int);
                &&& old(self).shared.state == TransportState::Closed ==> {
                    &&& r == Poll::<Result<usize, TransportError>>::Ready(
                        Err(TransportError::ConnectionRefused),
                    )
                    &&& *final(self) == *old(self)
                }
                &&& old(self).shared.state == TransportState::Idle && n > 0 ==> {
                    &&& r == Poll::<Result<usize, TransportError>>::Ready(Ok(n as usize))
                    &&& pending(*final(self)) == pending(*old(self)) + buf@.take(n)
                    &&& final(self).shared.state == old(self).shared.state
                    &&& final(self).shared.incoming_read_buf == old(self).shared.incoming_read_buf
                    &&& final(self).shared.flushed_out_buf == old(self).shared.flushed_out_buf
                    &&& same_setup(*old(self), *final(self))
                }
                &&& (old(self).shared.state == TransportState::Writing || (old(self).shared.state
                    == TransportState::Idle && n <= 0)) ==> {
                    &&& r is Pending
                    &&& registers(*old(self), *final(self), *waker)
                }
            }),
    {
        match self.shared.state {
            TransportState::Idle => {
                let len = self.shared.pending_write_buf.len();
                if len >= self.max_buf_size {
                    self.shared.waker = Some(waker.clone());
                    return Poll::Pending;
                }
                let available = self.max_buf_size - len;
                let n = min_usize(min_usize(buf.len(), available), self.max_per_request);
                if n > 0 {
                    let part: &[u8] = &buf[0..n];
                    self.shared.pending_write_buf.put_slice(part);
                    return Poll::Ready(Ok(n));
                }
                self.shared.waker = Some(waker.clone());
                Poll::Pending
            },
            TransportState::Closed => Poll::Ready(Err(TransportError::ConnectionRefused)),
            TransportState::Writing => {
                self.shared.waker = Some(waker.clone());
                Poll::Pending
            },
        }
    }

    /// Flushes: when idle, everything written so far moves, in order, to
    /// the end of the flushed bytes and the transport is idle again;
    /// otherwise the flush fails as busy and nothing changes.
    pub fn poll_flush(&mut self) -> (r: Poll<Result<(), TransportError>>)
        requires
            flushed(*old(self)).len() + pending(*old(self)).len() <= isize::MAX,
        ensures
            old(self).shared.state == TransportState::Idle ==> {
                &&& r == Poll::<Result<(), TransportError>>::Ready(Ok(()))
                &&& flushed(*final(self)) == flushed(*old(self)) + pending(*old(self))
                &&& pending(*final(self)) == Seq::<u8>::empty()
                &&& final(self).shared.state == TransportState::Idle
                &&& final(self).shared.incoming_read_buf == old(self).shared.incoming_read_buf
                &&& same_setup(*old(self), *final(self))
            },
            old(self).shared.state != TransportState::Idle ==> {
                &&& r == Poll::<Result<(), TransportError>>::Ready(Err(TransportError::Busy))
                &&& *final(self) == *old(self)
            },
    {
        if self.shared.state != TransportState::Idle {
            return Poll::Ready(Err(TransportError::Busy));
        }
        self.shared.state = TransportState::Writing;
        let len = self.shared.pending_write_buf.len();
        let moved = self.shared.pending_write_buf.split_to(len);
        let moved_bytes: &[u8] = moved.as_ref();
        self.shared.flushed_out_buf.extend_from_slice(moved_bytes);
        self.shared.state = TransportState::Idle;
        proof {
            assert(pending(*old(self)).take(len as int) =~= pending(*old(self)));
        }
        Poll::Ready(Ok(()))
    }

    /// Closes the transport; closing is always immediate and only the state
    /// changes.
    pub fn poll_close(&mut self) -> (r: Poll<Result<(), TransportError>>)
        ensures
            r == Poll::<Result<(), TransportError>>::Ready(Ok(())),
            final(self).shared.state == TransportState::Closed,
            final(self).shared.incoming_read_buf == old(self).shared.incoming_read_buf,
            final(self).shared.pending_write_buf == old(self).shared.pending_write_buf,
            final(self).shared.flushed_out_buf == old(self).shared.flushed_out_buf,
            same_setup(*old(self), *final(self)),
    {
        if self.shared.state == TransportState::Closed {
            return Poll::Ready(Ok(()));
        }
        self.shared.state = TransportState::Closed;
        Poll::Ready(Ok(()))
    }
}

/// A command from the client to the driver.
pub enum DriverCommand {
    Data(Bytes),
    Close,
}

/// The driver's state, shared with the client: queued commands, the
/// driver's waker, whether it is closed, the transport, the messages
/// waiting to be written, the message being written and how far, and the
/// bytes read so far.
pub struct DriverState<W> {
    pub queue: VecDeque<DriverCommand>,
    pub waker: Option<W>,
    pub closed: bool,
    pub transport: Transport<W>,
    pub outgoing_buf: VecDeque<Bytes>,
    pub current_send: Option<Bytes>,
    pub send_offset: usize,
    pub current_read: BytesMut,
}

/// Whether `cmds` holds a `Close`.
pub open spec fn has_close(cmds: Seq<DriverCommand>) -> bool {
    exists|i: int| 0 <= i < cmds.len() && #[trigger] cmds[i] is Close
}

/// The data of the commands before the first `Close`, in order.
pub open spec fn data_before_close(cmds: Seq<DriverCommand>) -> Seq<Bytes>
    decreases cmds.len(),
{
    if cmds.len() == 0 {
        Seq::empty()
    } else {
        match cmds[0] {
            DriverCommand::Close => Seq::empty(),
            DriverCommand::Data(d) => seq![d] + data_before_close(cmds.drop_first()),
        }
    }
}

/// The message being written, as the next write finds it: the current
/// one and its offset, or else the next waiting message from its start;
/// with the messages left waiting.
pub open spec fn next_send<W>(s: DriverState<W>) -> Option<(Bytes, int, Seq<Bytes>)> {
    match s.current_send {
        Some(b) => Some((b, s.send_offset as int, s.outgoing_buf@)),
        None => if s.outgoing_buf@.len() > 0 {
            Some((s.outgoing_buf@[0], 0, s.outgoing_buf@.drop_first()))
        } else {
            None
        },
    }
}

impl<W> DriverState<W> {
    /// The offset into the current message never passes its end.
    pub open spec fn wf(&self) -> bool {
        self.current_send matches Some(b) ==> self.send_offset <= bytes_view(b).len()
    }

    /// The next message to write fits, with what is already buffered, in
    /// a byte buffer, and so does the write buffer's bound.
    pub open spec fn write_fits(&self) -> bool {
        &&& self.transport.max_buf_size <= isize::MAX
        &&& next_send(*self) matches Some((b, off, rest)) ==> flushed(self.transport).len() + pending(
            self.transport,
        ).len() + bytes_view(b).len() - off <= isize::MAX
    }

    /// Every buffer the driver may grow stays within what a byte buffer can
    /// hold: the bytes read with those still unread, and the flushed and
    /// pending bytes with any one message waiting to be written.
    pub open spec fn buffers_fit(&self) -> bool {
        let t = self.transport;
        let base = flushed(t).len() + pending(t).len();
        &&& t.max_buf_size <= isize::MAX
        &&& bytes_mut_view(self.current_read).len() + incoming(t).len() <= isize::MAX
        &&& self.current_send matches Some(b) ==> base + bytes_view(b).len() <= isize::MAX
        &&& forall|i: int|
            0 <= i < self.outgoing_buf@.len() ==> base + bytes_view(
                #[trigger] self.outgoing_buf@[i],
            ).len() <= isize::MAX
        &&& forall|i: int|
            0 <= i < self.queue@.len() ==> (#[trigger] self.queue@[i] matches DriverCommand::Data(d)
                ==> base + bytes_view(d).len() <= isize::MAX)
    }

    /// What `drive_commands` does.
    pub open spec fn commands_step(self, after: Self, r: bool) -> bool {
        &&& after.queue@ == Seq::<DriverCommand>::empty()
        &&& after.outgoing_buf@ == self.outgoing_buf@ + data_before_close(self.queue@)
        &&& after.closed == (self.closed || has_close(self.queue@))
        &&& r == (self.queue@.len() > 0 && !has_close(self.queue@))
        &&& after.waker == self.waker
        &&& after.transport == self.transport
        &&& after.current_send == self.current_send
        &&& after.send_offset == self.send_offset
        &&& after.current_read == self.current_read
    }

    /// What `drive_write` does, with `waker` as the task's waker.
    pub open spec fn write_step(self, after: Self, waker: W, r: Result<bool, TransportError>) -> bool
        where W: Clone
    {
        &&& after.queue == self.queue
        &&& after.waker == self.waker
        &&& after.closed == self.closed
        &&& after.current_read == self.current_read
        &&& match next_send(self) {
            None => {
                &&& r == Ok::<bool, TransportError>(false)
                &&& after.current_send is None
                &&& after.send_offset == 0
                &&& after.outgoing_buf@ == self.outgoing_buf@
                &&& after.transport == self.transport
            },
            Some((b, off, rest)) => {
                let t = self.transport;
                let rem = bytes_view(b).len() - off;
                let w = total_write(t, rem);
                &&& after.outgoing_buf@ == rest
                &&& (t.shared.state == TransportState::Closed ==> {
                    &&& r == Err::<bool, TransportError>(
                        if rem > 0 {
                            TransportError::ConnectionRefused
                        } else {
                            TransportError::Busy
                        },
                    )
                    &&& after.transport == t
                    &&& after.current_send == Some(b)
                    &&& after.send_offset == off
                })
                &&& (t.shared.state == TransportState::Writing ==> {
                    &&& after.current_send == Some(b)
                    &&& after.send_offset == off
                    &&& rem > 0 ==> r == Ok::<bool, TransportError>(false) && registers(
                        t,
                        after.transport,
                        waker,
                    )
                    &&& rem <= 0 ==> r == Err::<bool, TransportError>(TransportError::Busy)
                        && after.transport == t
                })
                &&& (t.shared.state == TransportState::Idle && w == rem ==> {
                    &&& r == Ok::<bool, TransportError>(true)
                    &&& after.current_send is None
                    &&& after.send_offset == 0
                    &&& flushed(after.transport) == flushed(t) + pending(t) + bytes_view(b).skip(off)
                    &&& pending(after.transport) == Seq::<u8>::empty()
                    &&& after.transport.shared.state == TransportState::Idle
                    &&& after.transport.shared.incoming_read_buf == t.shared.incoming_read_buf
                    &&& same_setup(t, after.transport)
                })
                &&& (t.shared.state == TransportState::Idle && w != rem ==> {
                    &&& r == Ok::<bool, TransportError>(false)
                    &&& after.current_send == Some(b)
                    &&& after.send_offset == off + w
                    &&& pending(after.transport) == pending(t) + bytes_view(b).subrange(off, off + w)
                    &&& after.transport.shared.waker matches Some(x) && cloned(waker, x)
                    &&& after.transport.shared.state == TransportState::Idle
                    &&& after.transport.shared.incoming_read_buf == t.shared.incoming_read_buf
                    &&& after.transport.shared.flushed_out_buf == t.shared.flushed_out_buf
                    &&& after.transport.max_per_request == t.max_per_request
                    &&& after.transport.max_buf_size == t.max_buf_size
                })
            },
        }
    }

    /// What `drive_read` does, with `waker` as the task's waker.
    pub open spec fn read_step(
        self,
        after: Self,
        waker: W,
        r: Result<(bool, Option<Bytes>), TransportError>,
    ) -> bool
        where W: Clone
    {
        let t = self.transport;
        let inc = incoming(t);
        let cr = bytes_mut_view(self.current_read);
        &&& after.queue == self.queue
        &&& after.waker == self.waker
        &&& after.closed == self.closed
        &&& after.outgoing_buf == self.outgoing_buf
        &&& after.current_send == self.current_send
        &&& after.send_offset == self.send_offset
        &&& after.transport.shared.state == t.shared.state
        &&& after.transport.shared.pending_write_buf == t.shared.pending_write_buf
        &&& after.transport.shared.flushed_out_buf == t.shared.flushed_out_buf
        &&& after.transport.max_per_request == t.max_per_request
        &&& after.transport.max_buf_size == t.max_buf_size
        &&& (t.shared.state == TransportState::Writing || (t.shared.state == TransportState::Idle
            && inc.len() == 0)) ==> {
            &&& r == Ok::<(bool, Option<Bytes>), TransportError>((false, None))
            &&& registers(t, after.transport, waker)
            &&& after.current_read == self.current_read
        }
        &&& (t.shared.state == TransportState::Idle && inc.len() > 0) ==> {
            &&& r matches Ok((true, Some(f))) && bytes_view(f) == cr + inc
            &&& bytes_mut_view(after.current_read) == Seq::<u8>::empty()
            &&& incoming(after.transport) == Seq::<u8>::empty()
            &&& after.transport.shared.waker matches Some(x) && cloned(waker, x)
        }
        &&& t.shared.state == TransportState::Closed ==> {
            &&& r == Ok::<(bool, Option<Bytes>), TransportError>((true, None))
            &&& bytes_mut_view(after.current_read) == cr + inc
            &&& incoming(after.transport) == Seq::<u8>::empty()
            &&& after.transport.shared.waker == t.shared.waker
        }
    }

    /// Queues a command.
    pub fn enqueue(&mut self, command: DriverCommand)
        ensures
            final(self).queue@ == old(self).queue@.push(command),
            final(self).waker == old(self).waker,
            final(self).closed == old(self).closed,
            final(self).transport == old(self).transport,
            final(self).outgoing_buf == old(self).outgoing_buf,
            final(self).current_send == old(self).current_send,
            final(self).send_offset == old(self).send_offset,
            final(self).current_read == old(self).current_read,
    {
        self.queue.push_back(command);
    }

    /// Takes the oldest queued command, if any.
    pub fn dequeue(&mut self) -> (c: Option<DriverCommand>)
        ensures
            old(self).queue@.len() == 0 ==> c is None && final(self).queue@ == old(self).queue@,
            old(self).queue@.len() > 0 ==> c == Some(old(self).queue@[0]) && final(self).queue@
                == old(self).queue@.drop_first(),
            final(self).waker == old(self).waker,
            final(self).closed == old(self).closed,
            final(self).transport == old(self).transport,
            final(self).outgoing_buf == old(self).outgoing_buf,
            final(self).current_send == old(self).current_send,
            final(self).send_offset == old(self).send_offset,
            final(self).current_read == old(self).current_read,
    {
        let c = self.queue.pop_front();
        proof {
            if old(self).queue@.len() > 0 {
                assert(self.queue@ =~= old(self).queue@.drop_first());
            }
        }
        c
    }

    /// Takes every queued command: data goes to the messages waiting to be
    /// written, and a `Close` marks the driver closed and drops the
    /// commands behind it. Answers whether there was work and no `Close`.
    pub fn drive_commands(&mut self) -> (r: bool)
        ensures
            old(self).commands_step(*final(self), r),
    {
        if self.queue.len() == 0 {
            proof {
                assert(data_before_close(old(self).queue@) =~= Seq::<Bytes>::empty());
                assert(self.outgoing_buf@ =~= old(self).outgoing_buf@ + Seq::<Bytes>::empty());
                assert(self.queue@ =~= Seq::<DriverCommand>::empty());
                assert(!has_close(old(self).queue@));
            }
            return false;
        }
        let ghost q0 = self.queue@;
        let ghost out0 = self.outgoing_buf@;
        loop
            invariant
                self.outgoing_buf@ + data_before_close(self.queue@) == out0 + data_before_close(q0),
                has_close(self.queue@) == has_close(q0),
                q0 == old(self).queue@,
                out0 == old(self).outgoing_buf@,
                q0.len() > 0,
                self.closed == old(self).closed,
                self.waker == old(self).waker,
                self.transport == old(self).transport,
                self.current_send == old(self).current_send,
                self.send_offset == old(self).send_offset,
                self.current_read == old(self).current_read,
            decreases self.queue@.len(),
        {
            let ghost q = self.queue@;
            let c = self.dequeue();
            match c {
                Some(DriverCommand::Data(d)) => {
                    self.outgoing_buf.push_back(d);
                    proof {
                        assert(data_before_close(q) == seq![d] + data_before_close(q.drop_first()));
                        assert(self.outgoing_buf@ + data_before_close(self.queue@) =~= (
                        self.outgoing_buf@.drop_last()) + data_before_close(q));
                        assert(has_close(q) == has_close(q.drop_first())) by {
                            if has_close(q) {
                                let i = choose|i: int| 0 <= i < q.len() && #[trigger] q[i] is Close;
                                assert(q.drop_first()[i - 1] is Close);
                            }
                            if has_close(q.drop_first()) {
                                let i = choose|i: int|
                                    0 <= i < q.drop_first().len() && #[trigger] q.drop_first()[i] is Close;
                                assert(q[i + 1] is Close);
                            }
                        }
                    }
                },
                Some(DriverCommand::Close) => {
                    self.closed = true;
                    self.queue.clear();
                    proof {
                        assert(data_before_close(q) =~= Seq::<Bytes>::empty());
                        assert(q[0] is Close);
                        assert(self.outgoing_buf@ =~= out0 + data_before_close(q0));
                    }
                    return false;
                },
                None => {
                    proof {
                        assert(!has_close(q));
                        assert(self.queue@ =~= Seq::<DriverCommand>::empty());
                        assert(data_before_close(q) =~= Seq::<Bytes>::empty());
                        assert(self.outgoing_buf@ =~= out0 + data_before_close(q0));
                    }
                    return true;
                },
            }
        }
    }
    /// Writes the current message (taking the next waiting one when there
    /// is none) from where it stopped: chunks go to the transport until the
    /// message is written out, then the transport is flushed and the
    /// message is done; when the transport takes no more, the offset is
    /// kept for next time. Answers whether a message was completed.
    pub fn drive_write(&mut self, waker: &W) -> (r: Result<bool, TransportError>)
        where W: Clone
        requires
            old(self).wf(),
            old(self).write_fits(),
        ensures
            old(self).write_step(*final(self), *waker, r),
            final(self).wf(),
    {
        if self.current_send.is_none() {
            self.current_send = self.outgoing_buf.pop_front();
            self.send_offset = 0;
            proof {
                if old(self).outgoing_buf@.len() > 0 {
                    assert(self.outgoing_buf@ =~= old(self).outgoing_buf@.drop_first());
                }
            }
        }
        let buf = match &self.current_send {
            Some(b) => b.clone(),
            None => {
                return Ok(false);
            },
        };
        let ghost b = self.current_send.unwrap();
        let ghost off0 = self.send_offset as int;
        let ghost t0 = self.transport;
        let ghost rest0 = self.outgoing_buf@;
        let data: &[u8] = buf.as_ref();
        let len = data.len();
        let mut offset = self.send_offset;
        proof {
            assert(bytes_view(b).subrange(off0, off0) =~= Seq::<u8>::empty());
            assert(pending(t0) + Seq::<u8>::empty() =~= pending(t0));
        }
        while offset < len
            invariant
                old(self).wf(),
                next_send(*old(self)) == Some((b, off0, rest0)),
                t0 == old(self).transport,
                self.current_send == Some(b),
                self.outgoing_buf@ == rest0,
                self.queue == old(self).queue,
                self.waker == old(self).waker,
                self.closed == old(self).closed,
                self.current_read == old(self).current_read,
                data@ == bytes_view(b),
                len == data@.len(),
                off0 <= offset <= len,
                offset == self.send_offset,
                self.transport.shared.state == t0.shared.state,
                self.transport.shared.incoming_read_buf == t0.shared.incoming_read_buf,
                self.transport.shared.flushed_out_buf == t0.shared.flushed_out_buf,
                self.transport.shared.waker == t0.shared.waker,
                self.transport.max_per_request == t0.max_per_request,
                self.transport.max_buf_size == t0.max_buf_size,
                pending(self.transport) == pending(t0) + bytes_view(b).subrange(off0, offset as int),
                t0.shared.state != TransportState::Idle ==> self.transport == t0,
                t0.max_per_request == 0 ==> offset == off0,
                offset - off0 <= room(t0),
                t0.max_buf_size <= isize::MAX,
                flushed(t0).len() + pending(t0).len() + bytes_view(b).len() - off0 <= isize::MAX,
            decreases len - offset,
        {
            let ghost t1 = self.transport;
            let rest: &[u8] = &data[self.send_offset..len];
            let polled = self.transport.poll_write(waker, rest);
            let written = match polled {
                Poll::Ready(Ok(n)) => {
                    if n == 0 {
                        return Err(TransportError::WriteZero);
                    }
                    n
                },
                Poll::Ready(Err(e)) => {
                    return Err(e);
                },
                Poll::Pending => {
                    proof {
                        assert(room(t1) == room(t0) - (offset - off0));
                    }
                    return Ok(false);
                },
            };
            proof {
                assert(room(t1) == room(t0) - (offset - off0));
                assert(rest@.take(written as int) =~= bytes_view(b).subrange(
                    offset as int,
                    offset + written,
                ));
                assert(bytes_view(b).subrange(off0, offset as int) + bytes_view(b).subrange(
                    offset as int,
                    offset + written,
                ) =~= bytes_view(b).subrange(off0, offset + written));
            }
            offset = offset + written;
            self.send_offset = self.send_offset + written;
        }
        let ghost t2 = self.transport;
        let flush_result = self.transport.poll_flush();
        match flush_result {
            Poll::Ready(Ok(())) => {},
            Poll::Ready(Err(e)) => {
                return Err(e);
            },
            Poll::Pending => {
                return Ok(false);
            },
        }
        proof {
            assert(bytes_view(b).subrange(off0, len as int) =~= bytes_view(b).skip(off0));
            assert(flushed(self.transport) =~= flushed(t0) + pending(t0) + bytes_view(b).skip(off0));
        }
        self.send_offset = 0;
        self.current_send = None;
        Ok(true)
    }
    /// Reads everything the transport has, a chunk at a time, onto the
    /// bytes read so far. When it has read something and the transport
    /// then waits, the bytes read so far are handed back as one message
    /// and the read buffer starts empty; a closed transport ends the read
    /// without a message (the bytes stay). Answers whether anything
    /// happened, and the message.
    pub fn drive_read(&mut self, waker: &W) -> (r: Result<(bool, Option<Bytes>), TransportError>)
        where W: Clone
        requires
            bytes_mut_view(old(self).current_read).len() + incoming(old(self).transport).len()
                <= isize::MAX,
        ensures
            old(self).read_step(*final(self), *waker, r),
    {
        let mut progress = false;
        let ghost t0 = self.transport;
        let ghost cr0 = bytes_mut_view(self.current_read);
        let ghost inc0 = incoming(self.transport);
        proof {
            assert(cr0 + inc0 =~= bytes_mut_view(self.current_read) + incoming(self.transport));
        }
        loop
            invariant
                t0 == old(self).transport,
                cr0 == bytes_mut_view(old(self).current_read),
                inc0 == incoming(old(self).transport),
                self.queue == old(self).queue,
                self.waker == old(self).waker,
                self.closed == old(self).closed,
                self.outgoing_buf == old(self).outgoing_buf,
                self.current_send == old(self).current_send,
                self.send_offset == old(self).send_offset,
                self.transport.shared.state == t0.shared.state,
                self.transport.shared.pending_write_buf == t0.shared.pending_write_buf,
                self.transport.shared.flushed_out_buf == t0.shared.flushed_out_buf,
                self.transport.shared.waker == t0.shared.waker,
                self.transport.max_per_request == t0.max_per_request,
                self.transport.max_buf_size == t0.max_buf_size,
                bytes_mut_view(self.current_read) + incoming(self.transport) == cr0 + inc0,
                !progress ==> self.current_read == old(self).current_read && self.transport == t0,
                t0.shared.state == TransportState::Writing ==> !progress,
                progress ==> bytes_mut_view(self.current_read).len() > cr0.len(),
                cr0.len() + inc0.len() <= isize::MAX,
            decreases incoming(self.transport).len(),
        {
            let ghost t1 = self.transport;
            let mut chunk: Vec<u8> = vec![0u8; 1024];
            let polled = self.transport.poll_read(waker, chunk.as_mut_slice());
            match polled {
                Poll::Ready(Ok(n)) => {
                    if n == 0 {
                        proof {
                            assert(incoming(t1) =~= Seq::<u8>::empty());
                            assert(bytes_mut_view(self.current_read) =~= cr0 + inc0);
                            assert(incoming(self.transport) =~= Seq::<u8>::empty());
                        }
                        return Ok((true, None));
                    }
                    let ghost crv = bytes_mut_view(self.current_read);
                    let part: &[u8] = &chunk.as_slice()[0..n];
                    proof {
                        assert(part@ =~= incoming(t1).take(n as int));
                        assert(crv.len() + incoming(t1).len() == cr0.len() + inc0.len()) by {
                            assert((crv + incoming(t1)).len() == (cr0 + inc0).len());
                        }
                    }
                    self.current_read.extend_from_slice(part);
                    progress = true;
                    proof {
                        assert(part@ =~= incoming(t1).take(n as int));
                        assert(incoming(t1) =~= incoming(t1).take(n as int) + incoming(t1).skip(n as int));
                        assert(bytes_mut_view(self.current_read) + incoming(self.transport) =~= crv
                            + incoming(t1));
                    }
                },
                Poll::Ready(Err(e)) => {
                    return Err(e);
                },
                Poll::Pending => {
                    proof {
                        assert(incoming(t1).len() == 0 || t0.shared.state == TransportState::Writing);
                        assert(incoming(t1) =~= Seq::<u8>::empty() || t0.shared.state == TransportState::Writing);
                    }
                    if progress {
                        let mut current = BytesMut::new();
                        std::mem::swap(&mut current, &mut self.current_read);
                        let frozen = current.freeze();
                        proof {
                            assert(bytes_mut_view(current) =~= cr0 + inc0);
                        }
                        return Ok((true, Some(frozen)));
                    }
                    return Ok((false, None));
                },
            }
        }
    }
}

/// One waiter: its waker, the message it was answered with, and whether
/// it is finished.
pub struct Entry<W> {
    pub waker: Option<W>,
    pub result: Option<Bytes>,
    pub finished: bool,
}

/// The waiters, by id, and the counter that hands out ids.
pub struct WaitTable<W> {
    pub next: usize,
    pub entries: HashMap<usize, Entry<W>>,
}

/// A future that waits for the message answering its id.
pub struct DriverFuture {
    pub id: usize,
}

/// `k` is the smallest id in the table.
pub open spec fn is_min_key<W>(m: Map<usize, Entry<W>>, k: usize) -> bool {
    &&& m.contains_key(k)
    &&& forall|j: usize| #[trigger] m.contains_key(j) ==> k <= j
}

/// How the driver hands a message it read to the table: the waiter with
/// the smallest id gets it, is finished, and has its waker taken out to be
/// woken; with no message, or no waiter, nothing changes.
pub open spec fn deliver<W>(
    before: Map<usize, Entry<W>>,
    after: Map<usize, Entry<W>>,
    message: Option<Bytes>,
    woken: Option<W>,
) -> bool {
    match message {
        None => after == before && woken is None,
        Some(f) => {
            &&& (forall|k: usize| !before.contains_key(k)) ==> after == before && woken is None
            &&& forall|k: usize|
                #[trigger] is_min_key(before, k) ==> {
                    &&& after == before.insert(k, Entry { waker: None, result: Some(f), finished: true })
                    &&& woken == before[k].waker
                }
        },
    }
}

impl<W> WaitTable<W> {
    /// An empty table whose first id is 0.
    pub fn new() -> (t: Self)
        ensures
            t.next == 0,
            t.entries@ == Map::<usize, Entry<W>>::empty(),
    {
        WaitTable { next: 0, entries: HashMap::new() }
    }

    /// Adds a fresh, unfinished waiter under the next id and returns the id.
    pub fn add(&mut self) -> (id: usize)
        ensures
            id == old(self).next,
            final(self).next == next_id(old(self).next),
            final(self).entries@ == old(self).entries@.insert(
                id,
                Entry { waker: None, result: None, finished: false },
            ),
    {
        let id = take_id(&mut self.next);
        self.entries.insert(id, Entry { waker: None, result: None, finished: false });
        id
    }

    /// The smallest id in the table, if any.
    fn min_id(&self) -> (m: Option<usize>)
        ensures
            m is None <==> forall|k: usize| !self.entries@.contains_key(k),
            m matches Some(k) ==> is_min_key(self.entries@, k),
    {
        let ks = keys_of(&self.entries);
        if ks.len() == 0 {
            proof {
                assert forall|k: usize| !self.entries@.contains_key(k) by {
                    if self.entries@.contains_key(k) {
                        assert(ks@.to_set().contains(k));
                        assert(ks@.contains(k));
                    }
                }
            }
            return None;
        }
        let mut best = ks[0];
        let mut i: usize = 1;
        proof {
            assert(ks@.to_set().contains(ks@[0]));
        }
        while i < ks.len()
            invariant
                1 <= i <= ks@.len(),
                ks@.to_set() == self.entries@.dom(),
                self.entries@.contains_key(best),
                forall|j: int| 0 <= j < i ==> best <= #[trigger] ks@[j],
            decreases ks@.len() - i,
        {
            if ks[i] < best {
                best = ks[i];
                proof {
                    assert(ks@.to_set().contains(ks@[i as int]));
                }
            }
            i = i + 1;
        }
        proof {
            assert forall|j: usize| #[trigger] self.entries@.contains_key(j) implies best <= j by {
                assert(ks@.to_set().contains(j));
                let jj = choose|jj: int| 0 <= jj < ks@.len() && ks@[jj] == j;
                assert(best <= ks@[jj]);
            }
        }
        Some(best)
    }
}

impl DriverFuture {
    /// Polls the future: a finished waiter is removed and its message
    /// handed back; an unfinished one registers `waker` and is pending; an
    /// unknown id is ready with no message.
    pub fn poll<W>(&self, table: &mut WaitTable<W>, waker: W) -> (r: Poll<Option<Bytes>>)
        ensures
            final(table).next == old(table).next,
            !old(table).entries@.contains_key(self.id) ==> {
                &&& r == Poll::<Option<Bytes>>::Ready(None)
                &&& final(table).entries@ == old(table).entries@
            },
            old(table).entries@.contains_key(self.id) && old(table).entries@[self.id].finished ==> {
                &&& r == Poll::<Option<Bytes>>::Ready(old(table).entries@[self.id].result)
                &&& final(table).entries@ == old(table).entries@.remove(self.id)
            },
            old(table).entries@.contains_key(self.id) && !old(table).entries@[self.id].finished ==> {
                &&& r is Pending
                &&& final(table).entries@ == old(table).entries@.insert(
                    self.id,
                    Entry {
                        waker: Some(waker),
                        result: old(table).entries@[self.id].result,
                        finished: false,
                    },
                )
            },
    {
        let found = table.entries.remove(&self.id);
        match found {
            Some(mut entry) => {
                if entry.finished {
                    return Poll::Ready(entry.result);
                }
                entry.waker = Some(waker);
                table.entries.insert(self.id, entry);
                Poll::Pending
            },
            None => {
                proof {
                    assert(final(table).entries@ =~= old(table).entries@);
                }
                Poll::Ready(None)
            },
        }
    }
}

/// The client side of the driver.
pub struct ClientHandle;

impl ClientHandle {
    /// Sends `data`: refused when the driver is closed (nothing changes);
    /// otherwise the data is queued, a waiter is added under the next id,
    /// and the driver's waker is taken out to be woken. The future waits
    /// on the new id.
    pub fn send<W>(state: &mut DriverState<W>, table: &mut WaitTable<W>, data: Bytes) -> (res: (
        Result<DriverFuture, TransportError>,
        Option<W>,
    ))
        ensures
            old(state).closed ==> {
                &&& res.0 matches Err(e) && e == TransportError::ConnectionRefused
                &&& res.1 is None
                &&& *final(state) == *old(state)
                &&& final(table).next == old(table).next
                &&& final(table).entries@ == old(table).entries@
            },
            !old(state).closed ==> {
                &&& res.0 matches Ok(f) && f.id == old(table).next
                &&& res.1 == old(state).waker
                &&& final(state).queue@ == old(state).queue@.push(DriverCommand::Data(data))
                &&& final(state).waker is None
                &&& final(state).closed == old(state).closed
                &&& final(state).transport == old(state).transport
                &&& final(state).outgoing_buf == old(state).outgoing_buf
                &&& final(state).current_send == old(state).current_send
                &&& final(state).send_offset == old(state).send_offset
                &&& final(state).current_read == old(state).current_read
                &&& final(table).next == next_id(old(table).next)
                &&& final(table).entries@ == old(table).entries@.insert(
                    old(table).next,
                    Entry { waker: None, result: None, finished: false },
                )
            },
    {
        if state.closed {
            return (Err(TransportError::ConnectionRefused), None);
        }
        state.enqueue(DriverCommand::Data(data));
        let id = table.add();
        let woken = state.waker.take();
        (Ok(DriverFuture { id }), woken)
    }
}

/// What one poll of the driver tells its caller: the poll's outcome, a
/// waiter's waker to wake, and whether the driver should be polled again
/// right away because it made progress.
pub struct DriverPoll<W> {
    pub poll: Poll<Result<(), TransportError>>,
    pub woken: Option<W>,
    pub wake_self: bool,
}

/// `after` is `before` with the driver's waker replaced by a clone of
/// `waker`.
pub open spec fn registers_driver<W: Clone>(before: DriverState<W>, after: DriverState<W>, waker: W) -> bool {
    &&& after.waker matches Some(x) && cloned(waker, x)
    &&& after.queue == before.queue
    &&& after.closed == before.closed
    &&& after.transport == before.transport
    &&& after.outgoing_buf == before.outgoing_buf
    &&& after.current_send == before.current_send
    &&& after.send_offset == before.send_offset
    &&& after.current_read == before.current_read
}

/// One poll of the driver, through the intermediate states: commands are
/// taken (`s1`, `k1`), the current message is written (`s2`, `r2`), the
/// transport is read (`s3`, `r3`); an error ends the poll as ready with
/// that error; otherwise the driver registers `waker`, a message read goes
/// to the oldest waiter, and the driver is ready once closed, or pending
/// and asking to be polled again when any step made progress.
pub open spec fn poll_outcome<W: Clone>(
    s0: DriverState<W>,
    m0: Map<usize, Entry<W>>,
    s1: DriverState<W>,
    k1: bool,
    s2: DriverState<W>,
    r2: Result<bool, TransportError>,
    s3: DriverState<W>,
    r3: Result<(bool, Option<Bytes>), TransportError>,
    sf: DriverState<W>,
    mf: Map<usize, Entry<W>>,
    waker: W,
    res: DriverPoll<W>,
) -> bool {
    &&& s0.commands_step(s1, k1)
    &&& s1.write_step(s2, waker, r2)
    &&& match r2 {
        Err(e) => {
            &&& sf == s2
            &&& mf == m0
            &&& res.poll == Poll::<Result<(), TransportError>>::Ready(Err(e))
            &&& res.woken is None
            &&& !res.wake_self
        },
        Ok(k2) => {
            &&& s2.read_step(s3, waker, r3)
            &&& match r3 {
                Err(e) => {
                    &&& sf == s3
                    &&& mf == m0
                    &&& res.poll == Poll::<Result<(), TransportError>>::Ready(Err(e))
                    &&& res.woken is None
                    &&& !res.wake_self
                },
                Ok((k3, message)) => {
                    &&& registers_driver(s3, sf, waker)
                    &&& deliver(m0, mf, message, res.woken)
                    &&& s3.closed ==> res.poll == Poll::<Result<(), TransportError>>::Ready(Ok(()))
                        && !res.wake_self
                    &&& !s3.closed ==> res.poll is Pending && res.wake_self == (k1 || k2 || k3)
                },
            }
        },
    }
}

/// Each datum `data_before_close` collects is the data of some command.
proof fn lemma_data_before_close_from(cmds: Seq<DriverCommand>, i: int)
    requires
        0 <= i < data_before_close(cmds).len(),
    ensures
        exists|j: int|
            0 <= j < cmds.len() && #[trigger] cmds[j] == DriverCommand::Data(data_before_close(cmds)[i]),
    decreases cmds.len(),
{
    match cmds[0] {
        DriverCommand::Close => {},
        DriverCommand::Data(d) => {
            if i > 0 {
                lemma_data_before_close_from(cmds.drop_first(), i - 1);
                let j = choose|j: int|
                    0 <= j < cmds.drop_first().len() && #[trigger] cmds.drop_first()[j]
                        == DriverCommand::Data(data_before_close(cmds.drop_first())[i - 1]);
                assert(cmds[j + 1] == cmds.drop_first()[j]);
            } else {
                assert(cmds[0] == DriverCommand::Data(data_before_close(cmds)[i]));
            }
        },
    }
}

/// Taking the commands keeps the next message within what fits.
proof fn lemma_commands_keep_fit<W>(s0: DriverState<W>, s1: DriverState<W>, k1: bool)
    requires
        s0.buffers_fit(),
        s0.commands_step(s1, k1),
    ensures
        s1.write_fits(),
        bytes_mut_view(s1.current_read).len() + incoming(s1.transport).len() <= isize::MAX,
{
    if s1.current_send is None && s1.outgoing_buf@.len() > 0 {
        let first = s1.outgoing_buf@[0];
        if s0.outgoing_buf@.len() > 0 {
            assert(first == s0.outgoing_buf@[0]);
        } else {
            assert(s1.outgoing_buf@ =~= data_before_close(s0.queue@));
            lemma_data_before_close_from(s0.queue@, 0);
            let j = choose|j: int|
                0 <= j < s0.queue@.len() && #[trigger] s0.queue@[j] == DriverCommand::Data(
                    data_before_close(s0.queue@)[0],
                );
        }
    }
}

/// The background driver.
pub struct Driver;

impl Driver {
    /// Polls the driver once: takes the queued commands, writes the current
    /// message, reads what the transport has, registers `waker`, and hands
    /// a message read to the oldest waiter.
    pub fn poll<W: Clone>(state: &mut DriverState<W>, table: &mut WaitTable<W>, waker: &W) -> (res:
        DriverPoll<W>)
        requires
            old(state).wf(),
            old(state).buffers_fit(),
        ensures
            final(state).wf(),
            final(table).next == old(table).next,
            exists|
                s1: DriverState<W>,
                k1: bool,
                s2: DriverState<W>,
                r2: Result<bool, TransportError>,
                s3: DriverState<W>,
                r3: Result<(bool, Option<Bytes>), TransportError>,
            |
                #[trigger] poll_outcome(
                    *old(state),
                    old(table).entries@,
                    s1,
                    k1,
                    s2,
                    r2,
                    s3,
                    r3,
                    *final(state),
                    final(table).entries@,
                    *waker,
                    res,
                ),
    {
        let ghost s0 = *state;
        let ghost m0 = table.entries@;
        let k1 = state.drive_commands();
        let ghost s1 = *state;
        proof {
            lemma_commands_keep_fit(s0, s1, k1);
        }
        let r2 = state.drive_write(waker);
        let ghost s2 = *state;
        let k2 = match r2 {
            Ok(b) => b,
            Err(e) => {
                let res = DriverPoll { poll: Poll::Ready(Err(e)), woken: None, wake_self: false };
                proof {
                    assert(poll_outcome(s0, m0, s1, k1, s2, r2, s2, Ok((false, None)), *state,
                        table.entries@, *waker, res));
                }
                return res;
            },
        };
        let r3 = state.drive_read(waker);
        let ghost s3 = *state;
        let (k3, message) = match r3 {
            Ok(x) => x,
            Err(e) => {
                let res = DriverPoll { poll: Poll::Ready(Err(e)), woken: None, wake_self: false };
                proof {
                    assert(poll_outcome(s0, m0, s1, k1, s2, r2, s3, r3, *state,
                        table.entries@, *waker, res));
                }
                return res;
            },
        };
        let ghost msg = message;
        let keep_going = k1 || k2 || k3;
        let closed = state.closed;
        state.waker = Some(waker.clone());
        let woken = match message {
            Some(buf) => {
                match table.min_id() {
                    Some(id) => {
                        let entry = table.entries.remove(&id);
                        let entry = entry.unwrap();
                        table.entries.insert(id, Entry { waker: None, result: Some(buf), finished: true });
                        proof {
                            assert forall|k: usize| #[trigger] is_min_key(m0, k) implies k == id by {
                                assert(m0.contains_key(id));
                            }
                            assert(table.entries@ =~= m0.insert(
                                id,
                                Entry { waker: None, result: Some(buf), finished: true },
                            ));
                            assert(m0.contains_key(id));
                        }
                        entry.waker
                    },
                    None => None,
                }
            },
            None => None,
        };
        let res = if closed {
            DriverPoll { poll: Poll::Ready(Ok(())), woken, wake_self: false }
        } else {
            DriverPoll { poll: Poll::Pending, woken, wake_self: keep_going }
        };
        proof {
            assert(deliver(m0, table.entries@, msg, res.woken));
            assert(poll_outcome(s0, m0, s1, k1, s2, r2, s3, r3, *state, table.entries@, *waker, res));
        }
        res
    }
}

/// A write never overfills the transport: it takes no more than it was
/// offered, no more than one request may carry, and no more than the room
/// left, so a write buffer within its bound stays within it.
pub proof fn lemma_write_within_bounds<W>(t: Transport<W>, len: int)
    requires
        len >= 0,
        pending(t).len() <= t.max_buf_size,
    ensures
        write_size(t, len) <= len,
        write_size(t, len) <= t.max_per_request,
        pending(t).len() + vstd::math::max(write_size(t, len), 0) <= t.max_buf_size,
{
}

/// On an idle transport that takes at least one byte per request, a
/// message whose remaining bytes fit in the room left is written out whole
/// by one write step (which then flushes it).
pub proof fn lemma_fitting_message_completes<W>(t: Transport<W>, rem: int)
    requires
        0 <= rem <= room(t),
        t.max_per_request > 0,
    ensures
        total_write(t, rem) == rem,
{
}

/// The bytes a read handed back as a message (none without a message).
pub open spec fn handed_back(message: Option<Bytes>) -> Seq<u8> {
    match message {
        Some(f) => bytes_view(f),
        None => Seq::empty(),
    }
}

/// Reading loses and repeats no byte: the bytes held before a read (those
/// read so far, then those still unread) are the message handed back,
/// followed by the bytes held after it. So a message leaves the read buffer
/// empty, and the messages handed back over successive reads are the bytes
/// the peer sent, each once, in order.
pub proof fn lemma_read_conserves_bytes<W: Clone>(
    s: DriverState<W>,
    after: DriverState<W>,
    waker: W,
    r: Result<(bool, Option<Bytes>), TransportError>,
)
    requires
        s.read_step(after, waker, r),
    ensures
        r matches Ok((_, message)) && bytes_mut_view(s.current_read) + incoming(s.transport)
            == handed_back(message) + bytes_mut_view(after.current_read) + incoming(after.transport),
        r matches Ok((_, Some(f))) ==> bytes_mut_view(after.current_read) == Seq::<u8>::empty(),
{
    let cr = bytes_mut_view(s.current_read);
    let inc = incoming(s.transport);
    if s.transport.shared.state == TransportState::Closed {
        assert(cr + inc =~= Seq::<u8>::empty() + (cr + inc) + Seq::<u8>::empty());
    } else if s.transport.shared.state == TransportState::Idle && inc.len() > 0 {
        assert(cr + inc =~= (cr + inc) + Seq::<u8>::empty() + Seq::<u8>::empty());
    } else {
        assert(cr + inc =~= Seq::<u8>::empty() + cr + inc);
    }
}

/// A write answers `Ok(true)` exactly when it finished a message: there
/// was one to write and it is no longer current. Whenever the flushed bytes
/// grew, a message was finished and the answer is `Ok(true)`.
pub proof fn lemma_write_answers_completion<W: Clone>(
    s: DriverState<W>,
    after: DriverState<W>,
    waker: W,
    r: Result<bool, TransportError>,
)
    requires
        s.write_step(after, waker, r),
    ensures
        (r == Ok::<bool, TransportError>(true)) <==> (next_send(s) is Some
            && after.current_send is None),
        flushed(after.transport).len() > flushed(s.transport).len() ==> r == Ok::<
            bool,
            TransportError,
        >(true),
{
}

/// A driver poll that does not fail leaves the driver parked on (a clone
/// of) the waker it was polled with, so the next send can wake it.
pub proof fn lemma_poll_parks_driver<W: Clone>(
    s0: DriverState<W>,
    m0: Map<usize, Entry<W>>,
    sf: DriverState<W>,
    mf: Map<usize, Entry<W>>,
    waker: W,
    res: DriverPoll<W>,
)
    requires
        exists|
            s1: DriverState<W>,
            k1: bool,
            s2: DriverState<W>,
            r2: Result<bool, TransportError>,
            s3: DriverState<W>,
            r3: Result<(bool, Option<Bytes>), TransportError>,
        | #[trigger] poll_outcome(s0, m0, s1, k1, s2, r2, s3, r3, sf, mf, waker, res),
        !(res.poll matches Poll::Ready(Err(_))),
    ensures
        sf.waker matches Some(x) && cloned(waker, x),
{
    let (s1, k1, s2, r2, s3, r3) = choose|
        s1: DriverState<W>,
        k1: bool,
        s2: DriverState<W>,
        r2: Result<bool, TransportError>,
        s3: DriverState<W>,
        r3: Result<(bool, Option<Bytes>), TransportError>,
    | #[trigger] poll_outcome(s0, m0, s1, k1, s2, r2, s3, r3, sf, mf, waker, res);
}

/// A driver poll that stays pending after flushing out more bytes (so it
/// finished a message) asks to be polled again, so the next waiting message
/// gets written without another wake.
pub proof fn lemma_poll_after_progress_repolls<W: Clone>(
    s0: DriverState<W>,
    m0: Map<usize, Entry<W>>,
    sf: DriverState<W>,
    mf: Map<usize, Entry<W>>,
    waker: W,
    res: DriverPoll<W>,
)
    requires
        exists|
            s1: DriverState<W>,
            k1: bool,
            s2: DriverState<W>,
            r2: Result<bool, TransportError>,
            s3: DriverState<W>,
            r3: Result<(bool, Option<Bytes>), TransportError>,
        | #[trigger] poll_outcome(s0, m0, s1, k1, s2, r2, s3, r3, sf, mf, waker, res),
        res.poll is Pending,
        flushed(sf.transport).len() > flushed(s0.transport).len(),
    ensures
        res.wake_self,
{
    let (s1, k1, s2, r2, s3, r3) = choose|
        s1: DriverState<W>,
        k1: bool,
        s2: DriverState<W>,
        r2: Result<bool, TransportError>,
        s3: DriverState<W>,
        r3: Result<(bool, Option<Bytes>), TransportError>,
    | #[trigger] poll_outcome(s0, m0, s1, k1, s2, r2, s3, r3, sf, mf, waker, res);
    lemma_write_answers_completion(s1, s2, waker, r2);
}

/// The exercise's name.
pub fn crate_name() -> (name: &'static str)
    ensures
        name@ == "mock-transport"@,
{
    "mock-transport"
}

} // verus!
