//! Field and variant identifiers and bare little-endian integers.

use bytes::{Bytes, BytesMut};
use vstd::prelude::*;
use crate::buffer::{
    get_u32_le, get_u64_le, get_u8, put_u32_le, put_u64_le, put_u8, remaining, unread, written,
};
use crate::error::{EncoderError, Fault};
use crate::le::{le_bytes, le_value};
use crate::spec::{id_wire, lemma_skip_twice, parse_id};

verus! {

/// Writes a 32-bit number as four little-endian bytes, without a tag.
pub fn write_u32_le(writer: &mut BytesMut, value: u32) -> (r: Result<(), EncoderError>)
    ensures
        r is Ok,
        written(*final(writer)) == written(*old(writer)) + le_bytes(value as nat, 4),
{
    put_u32_le(writer, value);
    Ok(())
}

/// Reads four little-endian bytes as a 32-bit number, without a tag.
pub fn read_u32_le(reader: &mut Bytes) -> (r: Result<u32, EncoderError>)
    ensures
        unread(*old(reader)).len() < 4 ==> (r matches Err(e) && e@ == Fault::InsufficientData
            && unread(*final(reader)) == unread(*old(reader))),
        unread(*old(reader)).len() >= 4 ==> (r matches Ok(v) && v == le_value(
            unread(*old(reader)).take(4),
        ) && unread(*final(reader)) == unread(*old(reader)).skip(4)),
{
    if remaining(reader) < 4 {
        return Err(EncoderError::InsufficientData);
    }
    Ok(get_u32_le(reader))
}

/// Writes a 64-bit number as eight little-endian bytes, without a tag.
pub fn write_u64_le(writer: &mut BytesMut, value: u64) -> (r: Result<(), EncoderError>)
    ensures
        r is Ok,
        written(*final(writer)) == written(*old(writer)) + le_bytes(value as nat, 8),
{
    put_u64_le(writer, value);
    Ok(())
}

/// Reads eight little-endian bytes as a 64-bit number, without a tag.
pub fn read_u64_le(reader: &mut Bytes) -> (r: Result<u64, EncoderError>)
    ensures
        unread(*old(reader)).len() < 8 ==> (r matches Err(e) && e@ == Fault::InsufficientData
            && unread(*final(reader)) == unread(*old(reader))),
        unread(*old(reader)).len() >= 8 ==> (r matches Ok(v) && v == le_value(
            unread(*old(reader)).take(8),
        ) && unread(*final(reader)) == unread(*old(reader)).skip(8)),
{
    if remaining(reader) < 8 {
        return Err(EncoderError::InsufficientData);
    }
    Ok(get_u64_le(reader))
}

/// Writes a field or variant identifier: one byte for 0 to 250, else the
/// marker 255 and eight little-endian bytes.
pub fn write_field_id_optimized(writer: &mut BytesMut, field_id: u64) -> (r: Result<
    (),
    EncoderError,
>)
    ensures
        r is Ok,
        written(*final(writer)) == written(*old(writer)) + id_wire(field_id),
{
    if field_id == 0 {
        put_u8(writer, 0);
    } else if field_id <= 250 {
        put_u8(writer, field_id as u8);
    } else {
        put_u8(writer, 255);
        put_u64_le(writer, field_id);
        proof {
            assert(written(*writer) =~= written(*old(writer)) + id_wire(field_id));
        }
    }
    Ok(())
}

/// Reads a field or variant identifier; 0 is the terminator.
pub fn read_field_id_optimized(reader: &mut Bytes) -> (r: Result<u64, EncoderError>)
    ensures
        match parse_id(unread(*old(reader))) {
            Ok((id, n)) => r matches Ok(x) && x == id && 1 <= n <= unread(*old(reader)).len()
                && unread(*final(reader)) == unread(*old(reader)).skip(n as int),
            Err(f) => r matches Err(e) && e@ == f,
        },
{
    if remaining(reader) < 1 {
        return Err(EncoderError::InsufficientData);
    }
    let first_byte = get_u8(reader);
    if first_byte == 0 {
        Ok(0)
    } else if first_byte == 255 {
        if remaining(reader) < 8 {
            return Err(EncoderError::InsufficientData);
        }
        let id = get_u64_le(reader);
        proof {
            let s = unread(*old(reader));
            assert(s.skip(1).take(8) =~= s.subrange(1, 9));
            lemma_skip_twice(s, 1, 8);
        }
        Ok(id)
    } else {
        Ok(first_byte as u64)
    }
}

} // verus!
