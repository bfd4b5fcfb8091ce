//! What this crate relies on from the byte buffers of the `bytes` crate.
//!
//! Nothing in this file is proved: each contract restates what the
//! `bytes` source shows of the function that the body calls.

use crate::model::lexical::bytes_lt;
use bytes::{Buf, BufMut, Bytes, BytesMut};
use vstd::bytes::{spec_u64_from_le_bytes, spec_u64_to_le_bytes};
use vstd::prelude::*;

verus! {

/// `bytes::Bytes`: a handle on immutable bytes. Nothing inside it is
/// visible here.
#[verifier::external_type_specification]
#[verifier::external_body]
pub struct ExBytes(bytes::Bytes);

/// `bytes::BytesMut`: a buffer of bytes that grows. Nothing inside it is
/// visible here.
#[verifier::external_type_specification]
#[verifier::external_body]
pub struct ExBytesMut(bytes::BytesMut);

/// The bytes that a `Bytes` handle gives access to, first to last.
pub uninterp spec fn contents(b: Bytes) -> Seq<u8>;

/// The bytes written so far to a `BytesMut`, first to last.
pub uninterp spec fn written(b: BytesMut) -> Seq<u8>;

/// `Bytes::len`: the number of bytes held.
pub assume_specification[ Bytes::len ](b: &Bytes) -> (n: usize)
    ensures
        n == contents(*b).len(),
;

/// `Clone::clone` on `Bytes`: a second handle on the same bytes.
pub assume_specification[ <Bytes as Clone>::clone ](b: &Bytes) -> (r: Bytes)
    ensures
        contents(r) == contents(*b),
;

/// `Bytes::from` a `Vec<u8>`: a handle on the bytes of the vector.
#[verifier::external_body]
pub(crate) fn bytes_from_vec(v: Vec<u8>) -> (r: Bytes)
    ensures
        contents(r) == v@,
{
    Bytes::from(v)
}

/// `PartialEq::eq` on `Bytes`: whether the two handles hold the same
/// bytes.
#[verifier::external_body]
pub(crate) fn bytes_eq(a: &Bytes, b: &Bytes) -> (r: bool)
    ensures
        r == (contents(*a) == contents(*b)),
{
    a == b
}

/// `PartialOrd::lt` on `Bytes`: the slices of the two handles are compared
/// lexicographically.
#[verifier::external_body]
pub(crate) fn bytes_less(a: &Bytes, b: &Bytes) -> (r: bool)
    ensures
        r == bytes_lt(contents(*a), contents(*b)),
{
    a < b
}

/// `Bytes::slice` on `begin..end`: a handle on that part of the bytes.
/// It panics unless `begin <= end <= len`.
#[verifier::external_body]
pub(crate) fn bytes_slice(b: &Bytes, begin: usize, end: usize) -> (r: Bytes)
    requires
        begin <= end <= contents(*b).len(),
    ensures
        contents(r) == contents(*b).subrange(begin as int, end as int),
{
    b.slice(begin..end)
}

/// `Buf::advance` on `Bytes`: drops the first `cnt` bytes. It panics when
/// fewer remain.
#[verifier::external_body]
pub(crate) fn bytes_advance(b: &mut Bytes, cnt: usize)
    requires
        cnt <= contents(*old(b)).len(),
    ensures
        contents(*final(b)) == contents(*old(b)).skip(cnt as int),
{
    b.advance(cnt)
}

/// `Buf::get_u8` on `Bytes`: takes the first byte. It panics on an empty
/// buffer.
#[verifier::external_body]
pub(crate) fn bytes_get_u8(b: &mut Bytes) -> (v: u8)
    requires
        contents(*old(b)).len() >= 1,
    ensures
        v == contents(*old(b))[0],
        contents(*final(b)) == contents(*old(b)).skip(1),
{
    b.get_u8()
}

/// `Buf::get_u64_le` on `Bytes`: takes the first eight bytes as a
/// little-endian integer. It panics when fewer than eight remain.
#[verifier::external_body]
pub(crate) fn bytes_get_u64_le(b: &mut Bytes) -> (v: u64)
    requires
        contents(*old(b)).len() >= 8,
    ensures
        v == spec_u64_from_le_bytes(contents(*old(b)).subrange(0, 8)),
        contents(*final(b)) == contents(*old(b)).skip(8),
{
    b.get_u64_le()
}

/// `BytesMut::with_capacity`: an empty buffer. The vector behind it cannot
/// be allocated for more than `isize::MAX` bytes.
#[verifier::external_body]
pub(crate) fn buffer_with_capacity(capacity: usize) -> (r: BytesMut)
    requires
        capacity <= isize::MAX,
    ensures
        written(r) == Seq::<u8>::empty(),
{
    BytesMut::with_capacity(capacity)
}

/// `BufMut::put_u8` on `BytesMut`: appends one byte, growing the buffer as
/// needed. Growing past `isize::MAX` bytes panics.
#[verifier::external_body]
pub(crate) fn buffer_put_u8(buf: &mut BytesMut, n: u8)
    requires
        written(*old(buf)).len() + 1 <= isize::MAX,
    ensures
        written(*final(buf)) == written(*old(buf)).push(n),
{
    buf.put_u8(n)
}

/// `BufMut::put_u64_le` on `BytesMut`: appends the eight bytes of `n`, least
/// significant first. Growing past `isize::MAX` bytes panics.
#[verifier::external_body]
pub(crate) fn buffer_put_u64_le(buf: &mut BytesMut, n: u64)
    requires
        written(*old(buf)).len() + 8 <= isize::MAX,
    ensures
        written(*final(buf)) == written(*old(buf)) + spec_u64_to_le_bytes(n),
{
    buf.put_u64_le(n)
}

/// `BufMut::put` on `BytesMut`, with a `Bytes` as its source: appends all
/// of the source's bytes. Growing past `isize::MAX` bytes panics.
#[verifier::external_body]
pub(crate) fn buffer_put(buf: &mut BytesMut, src: Bytes)
    requires
        written(*old(buf)).len() + contents(src).len() <= isize::MAX,
    ensures
        written(*final(buf)) == written(*old(buf)) + contents(src),
{
    buf.put(src)
}

/// `BytesMut::freeze`: the bytes written, now immutable.
#[verifier::external_body]
pub(crate) fn buffer_freeze(buf: BytesMut) -> (r: Bytes)
    ensures
        contents(r) == written(buf),
{
    buf.freeze()
}

} // verus!
