//! The byte buffers of the `bytes` crate.

use bytes::{Buf, BufMut, Bytes, BytesMut};
use vstd::prelude::*;

use crate::codec::{big_endian, from_big_endian};

verus! {

/// `bytes::Bytes`, opaque.
#[verifier::external_type_specification]
#[verifier::external_body]
pub struct ExBytes(bytes::Bytes);

/// `bytes::BytesMut`, opaque.
#[verifier::external_type_specification]
#[verifier::external_body]
pub struct ExBytesMut(bytes::BytesMut);

/// The bytes that a `Bytes` holds, first to last.
pub uninterp spec fn frozen(bytes: Bytes) -> Seq<u8>;

/// The bytes that a `BytesMut` holds, first to last.
pub uninterp spec fn growing(buffer: BytesMut) -> Seq<u8>;

/// There is room for more bytes: a buffer that grows may double its capacity,
/// and no allocation passes `isize::MAX`.
pub open spec fn room_for(buffer: BytesMut, more: nat) -> bool {
    2 * (growing(buffer).len() + more) <= isize::MAX
}

/// `BytesMut::with_capacity`: an empty buffer. Allocating more than `isize::MAX`
/// bytes panics.
#[verifier::external_body]
pub(crate) fn new_buffer(capacity: usize) -> (buffer: BytesMut)
    requires
        capacity <= isize::MAX,
    ensures
        growing(buffer) == Seq::<u8>::empty(),
{
    BytesMut::with_capacity(capacity)
}

/// `BufMut::put_u8` of a `BytesMut`: one byte at the end. Growing past
/// `isize::MAX` panics.
#[verifier::external_body]
pub(crate) fn put_u8(buffer: &mut BytesMut, value: u8)
    requires
        room_for(*old(buffer), 1),
    ensures
        growing(*final(buffer)) == growing(*old(buffer)).push(value),
{
    buffer.put_u8(value)
}

/// `BufMut::put_u64` of a `BytesMut`: the eight bytes of a number at the end,
/// most significant first. Growing past `isize::MAX` panics.
#[verifier::external_body]
pub(crate) fn put_u64(buffer: &mut BytesMut, value: u64)
    requires
        room_for(*old(buffer), 8),
    ensures
        growing(*final(buffer)) == growing(*old(buffer)) + big_endian(value as nat, 8),
{
    buffer.put_u64(value)
}

/// `BufMut::put_slice` of a `BytesMut`: a slice's bytes at the end. Growing past
/// `isize::MAX` panics.
#[verifier::external_body]
pub(crate) fn put_slice(buffer: &mut BytesMut, source: &[u8])
    requires
        room_for(*old(buffer), source@.len()),
    ensures
        growing(*final(buffer)) == growing(*old(buffer)) + source@,
{
    buffer.put_slice(source)
}

/// `BytesMut::freeze`: the same bytes, immutable from now on.
#[verifier::external_body]
pub(crate) fn freeze(buffer: BytesMut) -> (bytes: Bytes)
    ensures
        frozen(bytes) == growing(buffer),
{
    buffer.freeze()
}

/// `Buf::remaining` of a byte slice: the number of bytes not read yet.
#[verifier::external_body]
pub(crate) fn remaining(buffer: &[u8]) -> (count: usize)
    ensures
        count == buffer@.len(),
{
    Buf::remaining(&buffer)
}

/// `Buf::get_u64` of a byte slice: takes eight bytes off the front and gives the
/// number that they stand for, most significant first. Panics on fewer bytes.
#[verifier::external_body]
pub(crate) fn get_u64(buffer: &mut &[u8]) -> (value: u64)
    requires
        old(buffer)@.len() >= 8,
    ensures
        value == from_big_endian(old(buffer)@.take(8)),
        final(buffer)@ == old(buffer)@.skip(8),
{
    buffer.get_u64()
}

/// `Buf::get_u8` of a byte slice: takes the first byte off. Panics if there is
/// none.
#[verifier::external_body]
pub(crate) fn get_u8(buffer: &mut &[u8]) -> (value: u8)
    requires
        old(buffer)@.len() >= 1,
    ensures
        value == old(buffer)@[0],
        final(buffer)@ == old(buffer)@.skip(1),
{
    buffer.get_u8()
}

} // verus!
