//! The byte buffers: `bytes::Bytes` to read from, `bytes::BytesMut` to write to.
//!
//! Verus does not look inside either type. This module names what a buffer
//! holds and states, for each buffer operation the codec uses, what the
//! `bytes` crate does to those contents. Everything here is trusted.

use bytes::{Buf, BufMut, Bytes, BytesMut};
use vstd::prelude::*;
use crate::le::{le_bytes, le_value};

verus! {

#[verifier::external_type_specification]
#[verifier::external_body]
pub struct ExBytes(Bytes);

#[verifier::external_type_specification]
#[verifier::external_body]
pub struct ExBytesMut(BytesMut);

/// The bytes of `reader` that have not been consumed yet, in order.
pub uninterp spec fn unread(reader: Bytes) -> Seq<u8>;

/// The bytes that `writer` holds, in the order they were written.
pub uninterp spec fn written(writer: BytesMut) -> Seq<u8>;

/// `Buf::remaining` on `Bytes`: the number of unread bytes.
#[verifier::external_body]
pub(crate) fn remaining(reader: &Bytes) -> (n: usize)
    ensures
        n == unread(*reader).len(),
{
    reader.remaining()
}

/// `Buf::get_u8` on `Bytes`: takes the first unread byte. The call panics on
/// an empty buffer, which the precondition excludes.
#[verifier::external_body]
pub(crate) fn get_u8(reader: &mut Bytes) -> (b: u8)
    requires
        unread(*old(reader)).len() >= 1,
    ensures
        b == unread(*old(reader))[0],
        unread(*final(reader)) == unread(*old(reader)).skip(1),
{
    reader.get_u8()
}

/// `Buf::get_u16_le` on `Bytes`: takes two bytes and reads them as a
/// little-endian number. Panics on fewer than two bytes, which is excluded.
#[verifier::external_body]
pub(crate) fn get_u16_le(reader: &mut Bytes) -> (v: u16)
    requires
        unread(*old(reader)).len() >= 2,
    ensures
        v == le_value(unread(*old(reader)).take(2)),
        unread(*final(reader)) == unread(*old(reader)).skip(2),
{
    reader.get_u16_le()
}

/// `Buf::get_u32_le` on `Bytes`: takes four bytes and reads them as a
/// little-endian number. Panics on fewer than four bytes, which is excluded.
#[verifier::external_body]
pub(crate) fn get_u32_le(reader: &mut Bytes) -> (v: u32)
    requires
        unread(*old(reader)).len() >= 4,
    ensures
        v == le_value(unread(*old(reader)).take(4)),
        unread(*final(reader)) == unread(*old(reader)).skip(4),
{
    reader.get_u32_le()
}

/// `Buf::get_u64_le` on `Bytes`: takes eight bytes and reads them as a
/// little-endian number. Panics on fewer than eight bytes, which is excluded.
#[verifier::external_body]
pub(crate) fn get_u64_le(reader: &mut Bytes) -> (v: u64)
    requires
        unread(*old(reader)).len() >= 8,
    ensures
        v == le_value(unread(*old(reader)).take(8)),
        unread(*final(reader)) == unread(*old(reader)).skip(8),
{
    reader.get_u64_le()
}

/// `Buf::get_u128_le` on `Bytes`: takes sixteen bytes and reads them as a
/// little-endian number. Panics on fewer than sixteen bytes, which is excluded.
#[verifier::external_body]
pub(crate) fn get_u128_le(reader: &mut Bytes) -> (v: u128)
    requires
        unread(*old(reader)).len() >= 16,
    ensures
        v == le_value(unread(*old(reader)).take(16)),
        unread(*final(reader)) == unread(*old(reader)).skip(16),
{
    reader.get_u128_le()
}

/// `Buf::advance` on `Bytes`: drops the first `count` unread bytes. Panics
/// when fewer are left, which is excluded.
#[verifier::external_body]
pub(crate) fn advance(reader: &mut Bytes, count: usize)
    requires
        count <= unread(*old(reader)).len(),
    ensures
        unread(*final(reader)) == unread(*old(reader)).skip(count as int),
{
    reader.advance(count)
}

/// `Buf::copy_to_slice` on `Bytes`, into a fresh vector of `count` bytes:
/// takes the first `count` unread bytes. Panics when fewer are left, which is
/// excluded.
#[verifier::external_body]
pub(crate) fn copy_to_vec(reader: &mut Bytes, count: usize) -> (out: Vec<u8>)
    requires
        count <= unread(*old(reader)).len(),
    ensures
        out@ == unread(*old(reader)).take(count as int),
        unread(*final(reader)) == unread(*old(reader)).skip(count as int),
{
    let mut out = vec![0u8; count];
    reader.copy_to_slice(&mut out);
    out
}

/// `Bytes::split_to`: splits the unread bytes at `count`; the front part is
/// returned and the rest stays. Panics when fewer are left, which is excluded.
#[verifier::external_body]
pub(crate) fn split_to(reader: &mut Bytes, count: usize) -> (front: Bytes)
    requires
        count <= unread(*old(reader)).len(),
    ensures
        unread(front) == unread(*old(reader)).take(count as int),
        unread(*final(reader)) == unread(*old(reader)).skip(count as int),
{
    reader.split_to(count)
}

/// `Bytes::len`: the number of unread bytes.
#[verifier::external_body]
pub(crate) fn bytes_len(data: &Bytes) -> (n: usize)
    ensures
        n == unread(*data).len(),
{
    data.len()
}

/// `BufMut::put_u8` on `BytesMut`: appends one byte.
#[verifier::external_body]
pub(crate) fn put_u8(writer: &mut BytesMut, b: u8)
    ensures
        written(*final(writer)) == written(*old(writer)) + seq![b],
{
    writer.put_u8(b)
}

/// `BufMut::put_u16_le` on `BytesMut`: appends the two little-endian bytes of `v`.
#[verifier::external_body]
pub(crate) fn put_u16_le(writer: &mut BytesMut, v: u16)
    ensures
        written(*final(writer)) == written(*old(writer)) + le_bytes(v as nat, 2),
{
    writer.put_u16_le(v)
}

/// `BufMut::put_u32_le` on `BytesMut`: appends the four little-endian bytes of `v`.
#[verifier::external_body]
pub(crate) fn put_u32_le(writer: &mut BytesMut, v: u32)
    ensures
        written(*final(writer)) == written(*old(writer)) + le_bytes(v as nat, 4),
{
    writer.put_u32_le(v)
}

/// `BufMut::put_u64_le` on `BytesMut`: appends the eight little-endian bytes of `v`.
#[verifier::external_body]
pub(crate) fn put_u64_le(writer: &mut BytesMut, v: u64)
    ensures
        written(*final(writer)) == written(*old(writer)) + le_bytes(v as nat, 8),
{
    writer.put_u64_le(v)
}

/// `BufMut::put_u128_le` on `BytesMut`: appends the sixteen little-endian bytes of `v`.
#[verifier::external_body]
pub(crate) fn put_u128_le(writer: &mut BytesMut, v: u128)
    ensures
        written(*final(writer)) == written(*old(writer)) + le_bytes(v as nat, 16),
{
    writer.put_u128_le(v)
}

/// `BufMut::put_slice` on `BytesMut`: appends the bytes of `data`.
#[verifier::external_body]
pub(crate) fn put_slice(writer: &mut BytesMut, data: &[u8])
    ensures
        written(*final(writer)) == written(*old(writer)) + data@,
{
    writer.put_slice(data)
}

/// `BufMut::put_slice` on `BytesMut`, given the unread part of a `Bytes`:
/// appends those bytes.
#[verifier::external_body]
pub(crate) fn put_bytes(writer: &mut BytesMut, data: &Bytes)
    ensures
        written(*final(writer)) == written(*old(writer)) + unread(*data),
{
    writer.put_slice(data)
}

/// `BytesMut::new`: an empty buffer.
#[verifier::external_body]
pub(crate) fn new_writer() -> (writer: BytesMut)
    ensures
        written(writer) == Seq::<u8>::empty(),
{
    BytesMut::new()
}

/// `BytesMut::freeze`: the written bytes, now to be read.
#[verifier::external_body]
pub(crate) fn freeze(writer: BytesMut) -> (reader: Bytes)
    ensures
        unread(reader) == written(writer),
{
    writer.freeze()
}

} // verus!
