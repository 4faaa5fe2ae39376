//! The byte sink: a `Vec<u8>` written through `bytes::BufMut`.
//!
//! The contracts in this file are believed, not proved. Each one restates
//! what the `bytes` crate does when the sink is a `Vec<u8>`: the vector
//! grows at its end by exactly the bytes named, and nothing already in it
//! changes. For a `Vec<u8>` the crate hands every write to
//! `Vec::extend_from_slice`, so a write fails only where the vector itself
//! cannot grow; like vstd's contracts for `Vec`, these leave that to the
//! allocator.

use crate::wire::be_bytes;
use bytes::BufMut;
use bytes::Bytes;
use vstd::prelude::*;

verus! {

/// `bytes::Bytes`, an immutable run of bytes that is cheap to clone.
#[verifier::external_type_specification]
#[verifier::external_body]
pub struct ExBytes(Bytes);

/// The bytes that a `Bytes` value holds, in order.
pub uninterp spec fn bytes_contents(b: Bytes) -> Seq<u8>;

/// `Deref::deref` of `Bytes`: the slice it hands out holds the contents of
/// the value.
#[verifier::external_body]
pub(crate) fn bytes_as_slice(b: &Bytes) -> (s: &[u8])
    ensures
        s@ == bytes_contents(*b),
{
    std::ops::Deref::deref(b)
}

/// `BufMut::put_u8`: appends the one byte `n`.
#[verifier::external_body]
pub(crate) fn put_u8(buffer: &mut Vec<u8>, n: u8)
    ensures
        final(buffer)@ == old(buffer)@.push(n),
{
    buffer.put_u8(n)
}

/// `BufMut::put_i8`: appends the one byte that is `n` in two's complement.
#[verifier::external_body]
pub(crate) fn put_i8(buffer: &mut Vec<u8>, n: i8)
    ensures
        final(buffer)@ == old(buffer)@ + be_bytes(n as int, 1),
{
    buffer.put_i8(n)
}

/// `BufMut::put_i16`: appends the two bytes of `n` in big-endian order,
/// two's complement.
#[verifier::external_body]
pub(crate) fn put_i16(buffer: &mut Vec<u8>, n: i16)
    ensures
        final(buffer)@ == old(buffer)@ + be_bytes(n as int, 2),
{
    buffer.put_i16(n)
}

/// `BufMut::put_i32`: appends the four bytes of `n` in big-endian order,
/// two's complement.
#[verifier::external_body]
pub(crate) fn put_i32(buffer: &mut Vec<u8>, n: i32)
    ensures
        final(buffer)@ == old(buffer)@ + be_bytes(n as int, 4),
{
    buffer.put_i32(n)
}

/// `BufMut::put_u32`: appends the four bytes of `n` in big-endian order.
#[verifier::external_body]
pub(crate) fn put_u32(buffer: &mut Vec<u8>, n: u32)
    ensures
        final(buffer)@ == old(buffer)@ + be_bytes(n as int, 4),
{
    buffer.put_u32(n)
}

/// `BufMut::put_i64`: appends the eight bytes of `n` in big-endian order,
/// two's complement.
#[verifier::external_body]
pub(crate) fn put_i64(buffer: &mut Vec<u8>, n: i64)
    ensures
        final(buffer)@ == old(buffer)@ + be_bytes(n as int, 8),
{
    buffer.put_i64(n)
}

/// `BufMut::put` with a byte slice as the source: appends all of `src`.
#[verifier::external_body]
pub(crate) fn put(buffer: &mut Vec<u8>, src: &[u8])
    ensures
        final(buffer)@ == old(buffer)@ + src@,
{
    buffer.put(src)
}

} // verus!
