//! The byte buffers of the `bytes` crate, as the library uses them.
//!
//! `Bytes` and `BytesMut` are opaque to Verus; what a handle holds is named
//! by `bytes_view` and `bytes_mut_view`, and each method the library calls
//! has a wrapper whose contract says what the method does to those contents.
use vstd::prelude::*;
use bytes::{Buf, BufMut, Bytes, BytesMut};
use crate::le::{i64_le, le_i64, le_u32, u32_le};

verus! {

#[verifier::external_type_specification]
#[verifier::external_body]
pub struct ExBytes(Bytes);

#[verifier::external_type_specification]
#[verifier::external_body]
pub struct ExBytesMut(BytesMut);

/// The bytes that a `Bytes` handle holds from its read position on.
pub uninterp spec fn bytes_view(b: Bytes) -> Seq<u8>;

/// The bytes written into a `BytesMut` so far.
pub uninterp spec fn bytes_mut_view(b: BytesMut) -> Seq<u8>;

/// `Bytes::new`: a handle that holds no bytes.
#[verifier::external_body]
pub fn bytes_new() -> (r: Bytes)
    ensures
        bytes_view(r) == Seq::<u8>::empty(),
{
    Bytes::new()
}

/// `<Bytes as Clone>::clone`: a second handle to the same bytes.
pub assume_specification[ <Bytes as Clone>::clone ](b: &Bytes) -> (r: Bytes)
    ensures
        bytes_view(r) == bytes_view(*b),
;

/// `<Bytes as PartialEq>::eq`: the two handles hold the same bytes.
#[verifier::external_body]
pub fn bytes_eq(a: &Bytes, b: &Bytes) -> (r: bool)
    ensures
        r == (bytes_view(*a) == bytes_view(*b)),
{
    a == b
}

/// `Bytes::len`: the number of bytes the handle holds.
#[verifier::external_body]
pub fn bytes_len(b: &Bytes) -> (r: usize)
    ensures
        r == bytes_view(*b).len(),
{
    b.len()
}

/// `<Bytes as Buf>::remaining`: the number of bytes left to read.
#[verifier::external_body]
pub fn bytes_remaining(b: &Bytes) -> (r: usize)
    ensures
        r == bytes_view(*b).len(),
{
    b.remaining()
}

/// `<Bytes as Buf>::has_remaining`: whether any byte is left to read.
#[verifier::external_body]
pub fn bytes_has_remaining(b: &Bytes) -> (r: bool)
    ensures
        r == (bytes_view(*b).len() > 0),
{
    b.has_remaining()
}

/// `<Bytes as Deref>::deref`: the bytes the handle holds, as a slice.
#[verifier::external_body]
pub fn bytes_as_slice(b: &Bytes) -> (r: &[u8])
    ensures
        r@ == bytes_view(*b),
{
    b
}

/// `<Bytes as Buf>::advance`: drops the first `cnt` bytes (it panics past the end).
#[verifier::external_body]
pub fn bytes_advance(b: &mut Bytes, cnt: usize)
    requires
        cnt <= bytes_view(*old(b)).len(),
    ensures
        bytes_view(*final(b)) == bytes_view(*old(b)).skip(cnt as int),
{
    b.advance(cnt)
}

/// `Bytes::split_to`: hands out the first `at` bytes and keeps the rest
/// (it panics past the end).
#[verifier::external_body]
pub fn bytes_split_to(b: &mut Bytes, at: usize) -> (r: Bytes)
    requires
        at <= bytes_view(*old(b)).len(),
    ensures
        bytes_view(r) == bytes_view(*old(b)).take(at as int),
        bytes_view(*final(b)) == bytes_view(*old(b)).skip(at as int),
{
    b.split_to(at)
}

/// `<Bytes as Buf>::get_u32_le`: reads a little-endian `u32` from the front
/// (it panics on fewer than four bytes).
#[verifier::external_body]
pub fn bytes_get_u32_le(b: &mut Bytes) -> (r: u32)
    requires
        bytes_view(*old(b)).len() >= 4,
    ensures
        r == le_u32(bytes_view(*old(b)).take(4)),
        bytes_view(*final(b)) == bytes_view(*old(b)).skip(4),
{
    b.get_u32_le()
}

/// `<Bytes as Buf>::get_i64_le`: reads a little-endian `i64` from the front
/// (it panics on fewer than eight bytes).
#[verifier::external_body]
pub fn bytes_get_i64_le(b: &mut Bytes) -> (r: i64)
    requires
        bytes_view(*old(b)).len() >= 8,
    ensures
        r == le_i64(bytes_view(*old(b)).take(8)),
        bytes_view(*final(b)) == bytes_view(*old(b)).skip(8),
{
    b.get_i64_le()
}

/// `BytesMut::new`: an empty buffer.
#[verifier::external_body]
pub fn bytes_mut_new() -> (r: BytesMut)
    ensures
        bytes_mut_view(r) == Seq::<u8>::empty(),
{
    BytesMut::new()
}

/// `BytesMut::with_capacity`: an empty buffer with room for `capacity` bytes
/// (the allocation panics beyond `isize::MAX` bytes).
#[verifier::external_body]
pub fn bytes_mut_with_capacity(capacity: usize) -> (r: BytesMut)
    requires
        capacity <= isize::MAX,
    ensures
        bytes_mut_view(r) == Seq::<u8>::empty(),
{
    BytesMut::with_capacity(capacity)
}

/// `<BytesMut as BufMut>::put_u8`: appends one byte (growth panics beyond
/// `isize::MAX` bytes).
#[verifier::external_body]
pub fn bytes_mut_put_u8(b: &mut BytesMut, n: u8)
    requires
        bytes_mut_view(*old(b)).len() + 1 <= isize::MAX,
    ensures
        bytes_mut_view(*final(b)) == bytes_mut_view(*old(b)).push(n),
{
    b.put_u8(n)
}

/// `<BytesMut as BufMut>::put_u32_le`: appends the little-endian bytes of `n`.
#[verifier::external_body]
pub fn bytes_mut_put_u32_le(b: &mut BytesMut, n: u32)
    requires
        bytes_mut_view(*old(b)).len() + 4 <= isize::MAX,
    ensures
        bytes_mut_view(*final(b)) == bytes_mut_view(*old(b)) + u32_le(n),
{
    b.put_u32_le(n)
}

/// `<BytesMut as BufMut>::put_i64_le`: appends the little-endian bytes of `n`.
#[verifier::external_body]
pub fn bytes_mut_put_i64_le(b: &mut BytesMut, n: i64)
    requires
        bytes_mut_view(*old(b)).len() + 8 <= isize::MAX,
    ensures
        bytes_mut_view(*final(b)) == bytes_mut_view(*old(b)) + i64_le(n),
{
    b.put_i64_le(n)
}

/// `<BytesMut as BufMut>::put_slice`: appends the bytes of `src`.
#[verifier::external_body]
pub fn bytes_mut_put_slice(b: &mut BytesMut, src: &[u8])
    requires
        bytes_mut_view(*old(b)).len() + src@.len() <= isize::MAX,
    ensures
        bytes_mut_view(*final(b)) == bytes_mut_view(*old(b)) + src@,
{
    b.put_slice(src)
}

/// `<BytesMut as Deref>::deref`: the bytes written so far, as a slice.
#[verifier::external_body]
pub fn bytes_mut_as_slice(b: &BytesMut) -> (r: &[u8])
    ensures
        r@ == bytes_mut_view(*b),
{
    b
}

/// `<BytesMut as DerefMut>::deref_mut`, then a store at index `i`: overwrites
/// one written byte.
#[verifier::external_body]
pub fn bytes_mut_set(b: &mut BytesMut, i: usize, v: u8)
    requires
        i < bytes_mut_view(*old(b)).len(),
    ensures
        bytes_mut_view(*final(b)) == bytes_mut_view(*old(b)).update(i as int, v),
{
    b[i] = v;
}

} // verus!
