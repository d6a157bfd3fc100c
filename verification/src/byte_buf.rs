//! What this library relies on from the `bytes` crate: the two buffer
//! types, a name for the bytes each holds, and the calls that the mock
//! transport makes on them.

use vstd::prelude::*;
use bytes::{Buf, BufMut, Bytes, BytesMut};

verus! {

/// `bytes::Bytes`, an immutable, cheaply cloned byte buffer.
#[verifier::external_type_specification]
#[verifier::external_body]
pub struct ExBytes(Bytes);

/// `bytes::BytesMut`, a growable byte buffer.
#[verifier::external_type_specification]
#[verifier::external_body]
pub struct ExBytesMut(BytesMut);

/// The bytes that a `Bytes` holds, in order.
pub uninterp spec fn bytes_view(b: Bytes) -> Seq<u8>;

/// The bytes that a `BytesMut` holds, in order.
pub uninterp spec fn bytes_mut_view(b: BytesMut) -> Seq<u8>;

/// `BytesMut::new`: an empty buffer.
pub assume_specification[ BytesMut::new ]() -> (b: BytesMut)
    ensures
        bytes_mut_view(b) == Seq::<u8>::empty(),
;

/// `BytesMut::len`: the number of bytes held.
pub assume_specification[ BytesMut::len ](b: &BytesMut) -> (n: usize)
    ensures
        n == bytes_mut_view(*b).len(),
;

/// `Buf::advance` on `BytesMut`: drops the first `cnt` bytes. The crate
/// panics when `cnt` exceeds the length, so that is ruled out.
pub assume_specification[ <BytesMut as Buf>::advance ](b: &mut BytesMut, cnt: usize)
    requires
        cnt <= bytes_mut_view(*old(b)).len(),
    ensures
        bytes_mut_view(*final(b)) == bytes_mut_view(*old(b)).skip(cnt as int),
;

/// `BufMut::put_slice` on `BytesMut`: appends `src`, growing the buffer as
/// needed. Growing panics when the new length overflows (the crate checks
/// the addition; the vector behind it caps allocations at `isize::MAX`
/// bytes), so that is ruled out.
pub assume_specification[ <BytesMut as BufMut>::put_slice ](b: &mut BytesMut, src: &[u8])
    requires
        bytes_mut_view(*old(b)).len() + src@.len() <= isize::MAX,
    ensures
        bytes_mut_view(*final(b)) == bytes_mut_view(*old(b)) + src@,
;

/// `BytesMut::extend_from_slice`: appends `extend`, growing the buffer as
/// needed; as for `put_slice`, a length past `isize::MAX` is ruled out.
pub assume_specification[ BytesMut::extend_from_slice ](b: &mut BytesMut, extend: &[u8])
    requires
        bytes_mut_view(*old(b)).len() + extend@.len() <= isize::MAX,
    ensures
        bytes_mut_view(*final(b)) == bytes_mut_view(*old(b)) + extend@,
;

/// `BytesMut::split_to`: hands back the first `at` bytes and keeps the
/// rest. The crate panics when `at` exceeds the length.
pub assume_specification[ BytesMut::split_to ](b: &mut BytesMut, at: usize) -> (front: BytesMut)
    requires
        at <= bytes_mut_view(*old(b)).len(),
    ensures
        bytes_mut_view(front) == bytes_mut_view(*old(b)).take(at as int),
        bytes_mut_view(*final(b)) == bytes_mut_view(*old(b)).skip(at as int),
;

/// `BytesMut::freeze`: the same bytes, as an immutable `Bytes`.
pub assume_specification[ BytesMut::freeze ](b: BytesMut) -> (frozen: Bytes)
    ensures
        bytes_view(frozen) == bytes_mut_view(b),
;

/// `Clone` for `Bytes`: another handle on the same bytes.
pub assume_specification[ <Bytes as Clone>::clone ](b: &Bytes) -> (c: Bytes)
    ensures
        bytes_view(c) == bytes_view(*b),
;

/// `AsRef<[u8]>` for `BytesMut`: the held bytes as a slice.
pub assume_specification[ <BytesMut as AsRef<[u8]>>::as_ref ](b: &BytesMut) -> (s: &[u8])
    ensures
        s@ == bytes_mut_view(*b),
;

/// `AsRef<[u8]>` for `Bytes`: the held bytes as a slice.
pub assume_specification[ <Bytes as AsRef<[u8]>>::as_ref ](b: &Bytes) -> (s: &[u8])
    ensures
        s@ == bytes_view(*b),
;

} // verus!
