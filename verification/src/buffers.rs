//! The byte buffers of the `bytes` crate, as the codec uses them.
//!
//! `BytesMut` is the growable receive/send buffer and `Bytes` the immutable
//! payload handle. Both are opaque here: what they hold is named by
//! [`bytes_mut_view`] and [`bytes_view`], and each method the codec calls has a
//! contract over those names, taken from the crate's source (version 1.x).
//! Capacity is not modelled: contracts speak of the bytes held, not of the
//! memory set aside for them.

use bytes::{Buf, BufMut, Bytes, BytesMut};
use vstd::prelude::*;

use crate::wire::be_u32_bytes;

verus! {

/// The mutable byte buffer of the `bytes` crate.
#[verifier::external_type_specification]
#[verifier::external_body]
pub struct ExBytesMut(BytesMut);

/// The immutable, shareable byte buffer of the `bytes` crate.
#[verifier::external_type_specification]
#[verifier::external_body]
pub struct ExBytes(Bytes);

/// The bytes that a `BytesMut` holds, in order.
pub uninterp spec fn bytes_mut_view(b: BytesMut) -> Seq<u8>;

/// The bytes that a `Bytes` holds, in order.
pub uninterp spec fn bytes_view(b: Bytes) -> Seq<u8>;

/// `BytesMut::len`: the number of bytes held.
#[verifier::external_body]
pub(crate) fn bytes_mut_len(b: &BytesMut) -> (n: usize)
    ensures
        n == bytes_mut_view(*b).len(),
{
    b.len()
}

/// `BytesMut` as a slice (`Deref`): the bytes held, in order.
#[verifier::external_body]
pub(crate) fn bytes_mut_as_slice(b: &BytesMut) -> (s: &[u8])
    ensures
        s@ == bytes_mut_view(*b),
{
    &b[..]
}

/// `BytesMut::reserve`: sets capacity aside for `additional` more bytes; the
/// bytes held are unchanged. `reserve` panics when the new capacity overflows,
/// and the `Vec` behind it cannot exceed `isize::MAX` bytes: the `requires`
/// keeps the held and reserved bytes within that. It is necessary, not
/// sufficient: what else the allocation holds (bytes already consumed at its
/// front, the doubling growth of `Vec::reserve`) and allocation failure depend
/// on state that the contents do not show, and are not ruled out. How much
/// capacity results is not stated.
#[verifier::external_body]
pub(crate) fn bytes_mut_reserve(b: &mut BytesMut, additional: usize)
    requires
        bytes_mut_view(*old(b)).len() + additional <= isize::MAX,
    ensures
        bytes_mut_view(*final(b)) == bytes_mut_view(*old(b)),
{
    b.reserve(additional)
}

/// `Buf::advance` on `BytesMut`: drops the first `cnt` bytes (panics if
/// `cnt` exceeds the length).
#[verifier::external_body]
pub(crate) fn bytes_mut_advance(b: &mut BytesMut, cnt: usize)
    requires
        cnt <= bytes_mut_view(*old(b)).len(),
    ensures
        bytes_mut_view(*final(b)) == bytes_mut_view(*old(b)).skip(cnt as int),
{
    b.advance(cnt)
}

/// `BytesMut::split_to`: returns the first `at` bytes and keeps the rest
/// (panics if `at` exceeds the length).
#[verifier::external_body]
pub(crate) fn bytes_mut_split_to(b: &mut BytesMut, at: usize) -> (front: BytesMut)
    requires
        at <= bytes_mut_view(*old(b)).len(),
    ensures
        bytes_mut_view(front) == bytes_mut_view(*old(b)).take(at as int),
        bytes_mut_view(*final(b)) == bytes_mut_view(*old(b)).skip(at as int),
{
    b.split_to(at)
}

/// `BytesMut::freeze`: the same bytes, as an immutable `Bytes`.
#[verifier::external_body]
pub(crate) fn bytes_mut_freeze(b: BytesMut) -> (frozen: Bytes)
    ensures
        bytes_view(frozen) == bytes_mut_view(b),
{
    b.freeze()
}

/// `BufMut::put_u32` on `BytesMut`: appends the four big-endian bytes of `n`.
/// It extends through `reserve`, hence the same bound as there.
#[verifier::external_body]
pub(crate) fn bytes_mut_put_u32(b: &mut BytesMut, n: u32)
    requires
        bytes_mut_view(*old(b)).len() + 4 <= isize::MAX,
    ensures
        bytes_mut_view(*final(b)) == bytes_mut_view(*old(b)) + be_u32_bytes(n as nat),
{
    b.put_u32(n)
}

/// `BufMut::put_slice` on `BytesMut`: appends the bytes of `s`. It extends
/// through `reserve`, hence the same bound as there.
#[verifier::external_body]
pub(crate) fn bytes_mut_put_slice(b: &mut BytesMut, s: &[u8])
    requires
        bytes_mut_view(*old(b)).len() + s@.len() <= isize::MAX,
    ensures
        bytes_mut_view(*final(b)) == bytes_mut_view(*old(b)) + s@,
{
    b.put_slice(s)
}

/// `Bytes::len`: the number of bytes held.
#[verifier::external_body]
pub(crate) fn bytes_len(b: &Bytes) -> (n: usize)
    ensures
        n == bytes_view(*b).len(),
{
    b.len()
}

/// `Bytes` as a slice (`Deref`): the bytes held, in order.
#[verifier::external_body]
pub(crate) fn bytes_as_slice(b: &Bytes) -> (s: &[u8])
    ensures
        s@ == bytes_view(*b),
{
    &b[..]
}

} // verus!
