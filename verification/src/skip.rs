//! Skipping one encoded value without knowing its type.
//!
//! The tag alone tells how far a value reaches. Tagged decoding relies on
//! this to step over fields it does not know.

use bytes::Bytes;
use vstd::prelude::*;
use crate::buffer::{advance, get_u8, remaining, unread};
use crate::error::{EncoderError, Fault};
use crate::spec::{
    lemma_skip_twice, parse_binary_len, parse_bool, parse_f64, parse_id, parse_seq_len,
    parse_text, parse_text_len, tail, take_bytes, word_bits,
};
use crate::model::Mode;
use crate::tag::{
    TAG_ARRAY_VEC_SET_BASE, TAG_ARRAY_VEC_SET_LONG, TAG_BINARY, TAG_CHRONO_DATETIME,
    TAG_CHRONO_NAIVE_DATE, TAG_CHRONO_NAIVE_TIME, TAG_DECIMAL, TAG_ENUM, TAG_ENUM_NAMED,
    TAG_ENUM_UNNAMED, TAG_F32, TAG_F64, TAG_JSON_ARRAY, TAG_JSON_BOOL, TAG_JSON_NULL,
    TAG_JSON_NUMBER, TAG_JSON_OBJECT, TAG_JSON_STRING, TAG_MAP, TAG_NEGATIVE, TAG_NONE, TAG_SOME,
    TAG_STRING_BASE, TAG_STRING_LONG, TAG_STRUCT_NAMED, TAG_STRUCT_UNIT, TAG_STRUCT_UNNAMED,
    TAG_TUPLE, TAG_U128, TAG_U16, TAG_U32, TAG_U64, TAG_U8, TAG_U8_127, TAG_UUID,
};
use crate::codec::{decode_text_length, decode_vec_length, Decoder, Float64};
use crate::field_id::read_field_id_optimized;
use crate::text::with_number;
use crate::varint::{lemma_parse_int_bounds, lemma_parse_uint_bounds, parse_int, parse_uint};

verus! {

/// `width` payload bytes after a one-byte tag.
pub open spec fn skip_fixed(rest: Seq<u8>, width: nat) -> Result<nat, Fault> {
    if rest.len() < width {
        Err(Fault::InsufficientData)
    } else {
        Ok(1 + width)
    }
}

/// `used` bytes consumed so far, then what `next` consumes.
pub open spec fn after(used: nat, next: Result<nat, Fault>) -> Result<nat, Fault> {
    match next {
        Ok(n) => Ok(used + n),
        Err(f) => Err(f),
    }
}

/// The bytes that a parsed item took, whatever the item was.
pub open spec fn used<T>(parsed: Result<(T, nat), Fault>) -> Result<nat, Fault> {
    match parsed {
        Ok((_, n)) => Ok(n),
        Err(f) => Err(f),
    }
}

/// The number of bytes that the value at the front of `s` takes, or why it
/// cannot be skipped: the input ends inside it, or it holds a tag that no
/// value starts with.
pub open spec fn skip_len(s: Seq<u8>) -> Result<nat, Fault>
    decreases s.len(), 0nat,
{
    if s.len() == 0 {
        Err(Fault::InsufficientData)
    } else {
        let tag = s[0];
        let rest = s.skip(1);
        if tag <= TAG_U8_127 {
            Ok(1)
        } else if tag == TAG_NONE {
            Ok(1)
        } else if tag == TAG_SOME {
            after(1, skip_len(rest))
        } else if tag == TAG_NEGATIVE {
            after(1, used(parse_uint(rest, 128)))
        } else if tag == TAG_U8 {
            skip_fixed(rest, 1)
        } else if tag == TAG_U16 {
            skip_fixed(rest, 2)
        } else if tag == TAG_U32 {
            skip_fixed(rest, 4)
        } else if tag == TAG_U64 {
            skip_fixed(rest, 8)
        } else if tag == TAG_U128 {
            skip_fixed(rest, 16)
        } else if tag == TAG_F32 {
            skip_fixed(rest, 4)
        } else if tag == TAG_F64 {
            skip_fixed(rest, 8)
        } else if TAG_STRING_BASE <= tag <= TAG_STRING_LONG {
            match parse_text_len(s) {
                Ok((len, n)) => used(take_bytes(s, len, n)),
                Err(f) => Err(f),
            }
        } else if tag == TAG_BINARY {
            match parse_binary_len(s) {
                Ok((len, n)) => used(take_bytes(s, len, n)),
                Err(f) => Err(f),
            }
        } else if TAG_ARRAY_VEC_SET_BASE <= tag <= TAG_ARRAY_VEC_SET_LONG {
            match parse_seq_len(s) {
                Ok((len, n)) => after(n, skip_many(tail(s, n), len)),
                Err(f) => Err(f),
            }
        } else if tag == TAG_STRUCT_UNIT {
            Ok(1)
        } else if tag == TAG_STRUCT_NAMED {
            after(1, skip_fields(rest))
        } else if tag == TAG_STRUCT_UNNAMED || tag == TAG_TUPLE || tag == TAG_JSON_ARRAY {
            match parse_uint(rest, word_bits()) {
                Ok((len, n)) => after(1 + n, skip_many(tail(rest, n), len)),
                Err(f) => Err(f),
            }
        } else if tag == TAG_MAP {
            match parse_uint(rest, word_bits()) {
                Ok((len, n)) => after(1 + n, skip_pairs(tail(rest, n), len)),
                Err(f) => Err(f),
            }
        } else if tag == TAG_ENUM {
            after(1, used(parse_id(rest)))
        } else if tag == TAG_ENUM_NAMED {
            match parse_id(rest) {
                Ok((_, n)) => after(1 + n, skip_fields(tail(rest, n))),
                Err(f) => Err(f),
            }
        } else if tag == TAG_ENUM_UNNAMED {
            match parse_id(rest) {
                Ok((_, n)) => match parse_uint(tail(rest, n), word_bits()) {
                    Ok((len, m)) => after(1 + n + m, skip_many(tail(tail(rest, n), m), len)),
                    Err(f) => Err(f),
                },
                Err(f) => Err(f),
            }
        } else if tag == TAG_CHRONO_DATETIME {
            match parse_int(rest, 64) {
                Ok((_, n)) => after(1 + n, used(parse_uint(tail(rest, n), 32))),
                Err(f) => Err(f),
            }
        } else if tag == TAG_CHRONO_NAIVE_DATE {
            after(1, used(parse_int(rest, 64)))
        } else if tag == TAG_CHRONO_NAIVE_TIME {
            match parse_uint(rest, 32) {
                Ok((_, n)) => after(1 + n, used(parse_uint(tail(rest, n), 32))),
                Err(f) => Err(f),
            }
        } else if tag == TAG_DECIMAL {
            match parse_int(rest, 128) {
                Ok((_, n)) => after(1 + n, used(parse_uint(tail(rest, n), 32))),
                Err(f) => Err(f),
            }
        } else if tag == TAG_UUID {
            skip_fixed(rest, 16)
        } else if tag == TAG_JSON_NULL {
            Ok(1)
        } else if tag == TAG_JSON_BOOL {
            after(1, used(parse_bool(Mode::Tagged, rest)))
        } else if tag == TAG_JSON_NUMBER {
            if rest.len() == 0 {
                Err(Fault::InsufficientData)
            } else if rest[0] == 0 {
                after(2, used(parse_uint(rest.skip(1), 64)))
            } else if rest[0] == 1 {
                after(2, used(parse_int(rest.skip(1), 64)))
            } else if rest[0] == 2 {
                after(2, used(parse_f64(Mode::Tagged, rest.skip(1))))
            } else {
                Err(Fault::Decode)
            }
        } else if tag == TAG_JSON_STRING {
            after(1, used(parse_text(rest)))
        } else if tag == TAG_JSON_OBJECT {
            match parse_uint(rest, word_bits()) {
                Ok((len, n)) => after(1 + n, skip_entries(tail(rest, n), len)),
                Err(f) => Err(f),
            }
        } else {
            Err(Fault::Decode)
        }
    }
}

/// The bytes that `count` values in a row take.
pub open spec fn skip_many(s: Seq<u8>, count: nat) -> Result<nat, Fault>
    decreases s.len(), count + 1,
{
    if count == 0 {
        Ok(0)
    } else {
        match skip_len(s) {
            Ok(n) => after(n, skip_many(tail(s, n), (count - 1) as nat)),
            Err(f) => Err(f),
        }
    }
}

/// The bytes that `count` entries of a map take: two values each.
pub open spec fn skip_pairs(s: Seq<u8>, count: nat) -> Result<nat, Fault>
    decreases s.len(), count + 1,
{
    if count == 0 {
        Ok(0)
    } else {
        match skip_len(s) {
            Err(f) => Err(f),
            Ok(n) => match skip_len(tail(s, n)) {
                Ok(m) => after(n + m, skip_pairs(tail(tail(s, n), m), (count - 1) as nat)),
                Err(f) => Err(f),
            },
        }
    }
}

/// The bytes that identified fields take, up to and with the terminator.
pub open spec fn skip_fields(s: Seq<u8>) -> Result<nat, Fault>
    decreases s.len(), 0nat,
{
    match parse_id(s) {
        Err(f) => Err(f),
        Ok((id, n)) => if id == 0 {
            Ok(n)
        } else {
            match skip_len(tail(s, n)) {
                Ok(m) => after(n + m, skip_fields(tail(tail(s, n), m))),
                Err(f) => Err(f),
            }
        },
    }
}

/// The bytes that `count` entries of a JSON object take: a text key and a
/// value each.
pub open spec fn skip_entries(s: Seq<u8>, count: nat) -> Result<nat, Fault>
    decreases s.len(), count + 1,
{
    if count == 0 {
        Ok(0)
    } else {
        match parse_text(s) {
            Err(f) => Err(f),
            Ok((_, n)) => match skip_len(tail(s, n)) {
                Ok(m) => after(n + m, skip_entries(tail(tail(s, n), m), (count - 1) as nat)),
                Err(f) => Err(f),
            },
        }
    }
}

/// What an operation that consumes bytes must have done, given what the
/// format says of the bytes it started with.
pub open spec fn consumed(
    expected: Result<nat, Fault>,
    before: Seq<u8>,
    after: Seq<u8>,
    r: Result<(), EncoderError>,
) -> bool {
    match expected {
        Ok(n) => r is Ok && n <= before.len() && after == before.skip(n as int),
        Err(f) => r matches Err(e) && e@ == f,
    }
}

/// Drops `width` bytes, which must be there.
fn skip_bytes(reader: &mut Bytes, width: usize) -> (r: Result<(), EncoderError>)
    ensures
        unread(*old(reader)).len() < width ==> (r matches Err(e) && e@ == Fault::InsufficientData),
        unread(*old(reader)).len() >= width ==> (r is Ok && unread(*final(reader)) == unread(
            *old(reader),
        ).skip(width as int)),
{
    if remaining(reader) < width {
        return Err(EncoderError::InsufficientData);
    }
    advance(reader, width);
    Ok(())
}

/// Skips `count` values in a row.
fn skip_values(reader: &mut Bytes, count: usize) -> (r: Result<(), EncoderError>)
    ensures
        consumed(
            skip_many(unread(*old(reader)), count as nat),
            unread(*old(reader)),
            unread(*final(reader)),
            r,
        ),
    decreases unread(*old(reader)).len(), count + 1,
{
    let ghost start = unread(*reader);
    let ghost mut used: nat = 0;
    let mut i: usize = 0;
    proof {
        assert(start.skip(0) =~= start);
    }
    while i < count
        invariant
            i <= count,
            start == unread(*old(reader)),
            used <= start.len(),
            unread(*reader) == start.skip(used as int),
            skip_many(start, count as nat) == after(
                used,
                skip_many(unread(*reader), (count - i) as nat),
            ),
        decreases count - i,
    {
        let ghost cur = unread(*reader);
        match skip_value(reader) {
            Ok(()) => {},
            Err(e) => {
                return Err(e);
            },
        }
        proof {
            match skip_len(cur) {
                Ok(n) => {
                    lemma_skip_twice(start, used, n);
                    used = used + n;
                },
                Err(_) => {},
            }
        }
        i += 1;
    }
    Ok(())
}

/// Skips `count` map entries: two values each.
fn skip_value_pairs(reader: &mut Bytes, count: usize) -> (r: Result<(), EncoderError>)
    ensures
        consumed(
            skip_pairs(unread(*old(reader)), count as nat),
            unread(*old(reader)),
            unread(*final(reader)),
            r,
        ),
    decreases unread(*old(reader)).len(), count + 1,
{
    let ghost start = unread(*reader);
    let ghost mut used: nat = 0;
    let mut i: usize = 0;
    proof {
        assert(start.skip(0) =~= start);
    }
    while i < count
        invariant
            i <= count,
            start == unread(*old(reader)),
            used <= start.len(),
            unread(*reader) == start.skip(used as int),
            skip_pairs(start, count as nat) == after(
                used,
                skip_pairs(unread(*reader), (count - i) as nat),
            ),
        decreases count - i,
    {
        let ghost cur = unread(*reader);
        match skip_value(reader) {
            Ok(()) => {},
            Err(e) => {
                return Err(e);
            },
        }
        let ghost mid = unread(*reader);
        match skip_value(reader) {
            Ok(()) => {},
            Err(e) => {
                return Err(e);
            },
        }
        proof {
            match skip_len(cur) {
                Ok(n) => {
                    lemma_skip_twice(start, used, n);
                    match skip_len(mid) {
                        Ok(m) => {
                            lemma_skip_twice(start, used + n, m);
                            used = used + n + m;
                        },
                        Err(_) => {},
                    }
                },
                Err(_) => {},
            }
        }
        i += 1;
    }
    Ok(())
}

/// Skips `count` entries of a JSON object: a text key and a value each.
fn skip_json_entries(reader: &mut Bytes, count: usize) -> (r: Result<(), EncoderError>)
    ensures
        consumed(
            skip_entries(unread(*old(reader)), count as nat),
            unread(*old(reader)),
            unread(*final(reader)),
            r,
        ),
    decreases unread(*old(reader)).len(), count + 1,
{
    let ghost start = unread(*reader);
    let ghost mut used: nat = 0;
    let mut i: usize = 0;
    proof {
        assert(start.skip(0) =~= start);
    }
    while i < count
        invariant
            i <= count,
            start == unread(*old(reader)),
            used <= start.len(),
            unread(*reader) == start.skip(used as int),
            skip_entries(start, count as nat) == after(
                used,
                skip_entries(unread(*reader), (count - i) as nat),
            ),
        decreases count - i,
    {
        let ghost cur = unread(*reader);
        match String::decode(reader) {
            Ok(_) => {},
            Err(e) => {
                return Err(e);
            },
        }
        let ghost mid = unread(*reader);
        match skip_value(reader) {
            Ok(()) => {},
            Err(e) => {
                return Err(e);
            },
        }
        proof {
            match parse_text(cur) {
                Ok((_, n)) => {
                    lemma_skip_twice(start, used, n);
                    match skip_len(mid) {
                        Ok(m) => {
                            lemma_skip_twice(start, used + n, m);
                            used = used + n + m;
                        },
                        Err(_) => {},
                    }
                },
                Err(_) => {},
            }
        }
        i += 1;
    }
    Ok(())
}

/// Skips identified fields up to and with the terminator.
fn skip_named_fields(reader: &mut Bytes) -> (r: Result<(), EncoderError>)
    ensures
        consumed(
            skip_fields(unread(*old(reader))),
            unread(*old(reader)),
            unread(*final(reader)),
            r,
        ),
    decreases unread(*old(reader)).len(), 0nat,
{
    let ghost start = unread(*reader);
    let ghost mut used: nat = 0;
    proof {
        assert(start.skip(0) =~= start);
    }
    loop
        invariant
            start == unread(*old(reader)),
            used <= start.len(),
            unread(*reader) == start.skip(used as int),
            skip_fields(start) == after(used, skip_fields(unread(*reader))),
        decreases unread(*reader).len(),
    {
        let ghost cur = unread(*reader);
        let field_id = match read_field_id_optimized(reader) {
            Ok(id) => id,
            Err(e) => {
                return Err(e);
            },
        };
        let ghost mid = unread(*reader);
        proof {
            match parse_id(cur) {
                Ok((_, n)) => {
                    lemma_skip_twice(start, used, n);
                },
                Err(_) => {},
            }
        }
        if field_id == 0 {
            return Ok(());
        }
        match skip_value(reader) {
            Ok(()) => {},
            Err(e) => {
                return Err(e);
            },
        }
        proof {
            match parse_id(cur) {
                Ok((_, n)) => {
                    match skip_len(mid) {
                        Ok(m) => {
                            lemma_skip_twice(start, used + n, m);
                            used = used + n + m;
                        },
                        Err(_) => {},
                    }
                },
                Err(_) => {},
            }
        }
    }
}

/// Reads a count and reports how the reader moved.
fn skip_count(reader: &mut Bytes) -> (r: Result<usize, EncoderError>)
    ensures
        match parse_uint(unread(*old(reader)), word_bits()) {
            Ok((len, n)) => r matches Ok(x) && x == len && 1 <= n <= unread(*old(reader)).len()
                && unread(*final(reader)) == unread(*old(reader)).skip(n as int),
            Err(f) => r matches Err(e) && e@ == f,
        },
{
    proof {
        lemma_parse_uint_bounds(unread(*reader), word_bits());
    }
    usize::decode(reader)
}

/// Skips the payload of a tag that is followed by a fixed number of bytes.
fn skip_fixed_payload(tag: u8, reader: &mut Bytes, Ghost(s): Ghost<Seq<u8>>) -> (r: Result<
    (),
    EncoderError,
>)
    requires
        s.len() > 0,
        s[0] == tag,
        unread(*old(reader)) == s.skip(1),
        tag == TAG_U8 || tag == TAG_U16 || tag == TAG_U32 || tag == TAG_U64 || tag == TAG_U128
            || tag == TAG_F32 || tag == TAG_F64 || tag == TAG_UUID,
    ensures
        consumed(skip_len(s), s, unread(*final(reader)), r),
{
    let width: usize = if tag == TAG_U8 {
        1
    } else if tag == TAG_U16 {
        2
    } else if tag == TAG_U32 || tag == TAG_F32 {
        4
    } else if tag == TAG_U64 || tag == TAG_F64 {
        8
    } else {
        16
    };
    let r = skip_bytes(reader, width);
    proof {
        if s.len() - 1 >= width {
            lemma_skip_twice(s, 1, width as nat);
        }
    }
    r
}

/// Skips the payload of a text or binary tag: the length, if the tag does
/// not hold it, and the bytes.
fn skip_length_payload(tag: u8, reader: &mut Bytes, Ghost(s): Ghost<Seq<u8>>) -> (r: Result<
    (),
    EncoderError,
>)
    requires
        s.len() > 0,
        s[0] == tag,
        unread(*old(reader)) == s.skip(1),
        TAG_STRING_BASE <= tag <= TAG_BINARY,
    ensures
        consumed(skip_len(s), s, unread(*final(reader)), r),
{
    let len = if tag == TAG_BINARY {
        match skip_count(reader) {
            Ok(len) => len,
            Err(e) => {
                return Err(e);
            },
        }
    } else {
        match decode_text_length(tag, reader) {
            Ok(len) => len,
            Err(e) => {
                return Err(e);
            },
        }
    };
    let ghost lead = (s.len() - unread(*reader).len()) as nat;
    proof {
        lemma_skip_twice(s, 1, (lead - 1) as nat);
    }
    let r = skip_bytes(reader, len);
    proof {
        if s.len() - lead >= len {
            lemma_skip_twice(s, lead, len as nat);
        }
    }
    r
}

/// Skips the payload of an adapter tag built from encoded numbers.
fn skip_number_payload(tag: u8, reader: &mut Bytes, Ghost(s): Ghost<Seq<u8>>) -> (r: Result<
    (),
    EncoderError,
>)
    requires
        s.len() > 0,
        s[0] == tag,
        unread(*old(reader)) == s.skip(1),
        tag == TAG_CHRONO_DATETIME || tag == TAG_DECIMAL || tag == TAG_CHRONO_NAIVE_TIME || tag
            == TAG_CHRONO_NAIVE_DATE,
    ensures
        consumed(skip_len(s), s, unread(*final(reader)), r),
{
    let ghost rest = unread(*reader);
    proof {
        lemma_parse_int_bounds(rest, 64);
        lemma_parse_int_bounds(rest, 128);
        lemma_parse_uint_bounds(rest, 32);
    }
    if tag == TAG_CHRONO_DATETIME || tag == TAG_CHRONO_NAIVE_DATE {
        match i64::decode(reader) {
            Ok(_) => {},
            Err(e) => {
                return Err(e);
            },
        }
    } else if tag == TAG_DECIMAL {
        match i128::decode(reader) {
            Ok(_) => {},
            Err(e) => {
                return Err(e);
            },
        }
    } else {
        match u32::decode(reader) {
            Ok(_) => {},
            Err(e) => {
                return Err(e);
            },
        }
    }
    let ghost lead = (s.len() - unread(*reader).len()) as nat;
    let ghost body = unread(*reader);
    proof {
        lemma_skip_twice(s, 1, (lead - 1) as nat);
        lemma_parse_uint_bounds(body, 32);
    }
    if tag == TAG_CHRONO_NAIVE_DATE {
        return Ok(());
    }
    match u32::decode(reader) {
        Ok(_) => {
            proof {
                match parse_uint(body, 32) {
                    Ok((_, n)) => lemma_skip_twice(s, lead, n),
                    Err(_) => {},
                }
            }
            Ok(())
        },
        Err(e) => Err(e),
    }
}

/// Skips the payload of a JSON boolean, number or string tag.
fn skip_json_payload(tag: u8, reader: &mut Bytes, Ghost(s): Ghost<Seq<u8>>) -> (r: Result<
    (),
    EncoderError,
>)
    requires
        s.len() > 0,
        s[0] == tag,
        unread(*old(reader)) == s.skip(1),
        tag == TAG_JSON_BOOL || tag == TAG_JSON_NUMBER || tag == TAG_JSON_STRING,
    ensures
        consumed(skip_len(s), s, unread(*final(reader)), r),
{
    let ghost rest = unread(*reader);
    if tag == TAG_JSON_BOOL {
        match bool::decode(reader) {
            Ok(_) => {
                proof {
                    lemma_skip_twice(s, 1, 1);
                }
                Ok(())
            },
            Err(e) => Err(e),
        }
    } else if tag == TAG_JSON_STRING {
        match String::decode(reader) {
            Ok(_) => {
                proof {
                    match parse_text(rest) {
                        Ok((_, n)) => lemma_skip_twice(s, 1, n),
                        Err(_) => {},
                    }
                }
                Ok(())
            },
            Err(e) => Err(e),
        }
    } else {
        if remaining(reader) == 0 {
            return Err(EncoderError::InsufficientData);
        }
        let kind = get_u8(reader);
        let ghost body = unread(*reader);
        proof {
            lemma_skip_twice(s, 1, 1);
            lemma_parse_uint_bounds(body, 64);
            lemma_parse_int_bounds(body, 64);
        }
        if kind == 0 {
            match u64::decode(reader) {
                Ok(_) => {
                    proof {
                        match parse_uint(body, 64) {
                            Ok((_, n)) => lemma_skip_twice(s, 2, n),
                            Err(_) => {},
                        }
                    }
                    Ok(())
                },
                Err(e) => Err(e),
            }
        } else if kind == 1 {
            match i64::decode(reader) {
                Ok(_) => {
                    proof {
                        match parse_int(body, 64) {
                            Ok((_, n)) => lemma_skip_twice(s, 2, n),
                            Err(_) => {},
                        }
                    }
                    Ok(())
                },
                Err(e) => Err(e),
            }
        } else if kind == 2 {
            match Float64::decode(reader) {
                Ok(_) => {
                    proof {
                        lemma_skip_twice(s, 2, 9);
                    }
                    Ok(())
                },
                Err(e) => Err(e),
            }
        } else {
            Err(
                EncoderError::Decode(
                    with_number("Invalid JSON Number type marker: ", kind as u128),
                ),
            )
        }
    }
}

/// Skips the payload of a tag that is followed by a number of values: a
/// sequence, a tuple, a positional struct, a map, a JSON array or object.
fn skip_counted_payload(tag: u8, reader: &mut Bytes, Ghost(s): Ghost<Seq<u8>>) -> (r: Result<
    (),
    EncoderError,
>)
    requires
        s.len() > 0,
        s[0] == tag,
        unread(*old(reader)) == s.skip(1),
        TAG_ARRAY_VEC_SET_BASE <= tag <= TAG_ARRAY_VEC_SET_LONG || tag == TAG_STRUCT_UNNAMED
            || tag == TAG_TUPLE || tag == TAG_JSON_ARRAY || tag == TAG_MAP || tag
            == TAG_JSON_OBJECT,
    ensures
        consumed(skip_len(s), s, unread(*final(reader)), r),
    decreases unread(*old(reader)).len(), 0x2_0000_0000_0000_0000nat,
{
    let len = if tag >= TAG_ARRAY_VEC_SET_BASE && tag <= TAG_ARRAY_VEC_SET_LONG {
        match decode_vec_length(tag, reader) {
            Ok(len) => len,
            Err(e) => {
                return Err(e);
            },
        }
    } else {
        match skip_count(reader) {
            Ok(len) => len,
            Err(e) => {
                return Err(e);
            },
        }
    };
    let ghost lead = (s.len() - unread(*reader).len()) as nat;
    let ghost body = unread(*reader);
    proof {
        lemma_skip_twice(s, 1, (lead - 1) as nat);
    }
    if tag == TAG_MAP {
        let r = skip_value_pairs(reader, len);
        proof {
            match skip_pairs(body, len as nat) {
                Ok(n) => lemma_skip_twice(s, lead, n),
                Err(_) => {},
            }
        }
        r
    } else if tag == TAG_JSON_OBJECT {
        let r = skip_json_entries(reader, len);
        proof {
            match skip_entries(body, len as nat) {
                Ok(n) => lemma_skip_twice(s, lead, n),
                Err(_) => {},
            }
        }
        r
    } else {
        let r = skip_values(reader, len);
        proof {
            match skip_many(body, len as nat) {
                Ok(n) => lemma_skip_twice(s, lead, n),
                Err(_) => {},
            }
        }
        r
    }
}

/// Skips the payload of an enum tag: the variant identifier and the
/// variant's fields.
fn skip_enum_payload(tag: u8, reader: &mut Bytes, Ghost(s): Ghost<Seq<u8>>) -> (r: Result<
    (),
    EncoderError,
>)
    requires
        s.len() > 0,
        s[0] == tag,
        unread(*old(reader)) == s.skip(1),
        tag == TAG_ENUM || tag == TAG_ENUM_NAMED || tag == TAG_ENUM_UNNAMED,
    ensures
        consumed(skip_len(s), s, unread(*final(reader)), r),
    decreases unread(*old(reader)).len(), 0x2_0000_0000_0000_0000nat,
{
    let ghost rest = unread(*reader);
    match read_field_id_optimized(reader) {
        Ok(_) => {},
        Err(e) => {
            return Err(e);
        },
    }
    let ghost lead1 = (s.len() - unread(*reader).len()) as nat;
    let ghost body1 = unread(*reader);
    proof {
        lemma_skip_twice(s, 1, (lead1 - 1) as nat);
    }
    if tag == TAG_ENUM {
        Ok(())
    } else if tag == TAG_ENUM_NAMED {
        let r = skip_named_fields(reader);
        proof {
            match skip_fields(body1) {
                Ok(n) => lemma_skip_twice(s, lead1, n),
                Err(_) => {},
            }
        }
        r
    } else {
        let len = match skip_count(reader) {
            Ok(len) => len,
            Err(e) => {
                return Err(e);
            },
        };
        let ghost lead = (s.len() - unread(*reader).len()) as nat;
        let ghost body = unread(*reader);
        proof {
            lemma_skip_twice(s, lead1, (lead - lead1) as nat);
            lemma_skip_twice(rest, (lead1 - 1) as nat, (lead - lead1) as nat);
        }
        let r = skip_values(reader, len);
        proof {
            match skip_many(body, len as nat) {
                Ok(n) => lemma_skip_twice(s, lead, n),
                Err(_) => {},
            }
        }
        r
    }
}

/// Skips one encoded value of any type.
///
/// On success the reader stands behind the value. On failure the reader is
/// left somewhere inside it.
pub fn skip_value(reader: &mut Bytes) -> (r: Result<(), EncoderError>)
    ensures
        consumed(skip_len(unread(*old(reader))), unread(*old(reader)), unread(*final(reader)), r),
    decreases unread(*old(reader)).len(), 0nat,
{
    if remaining(reader) == 0 {
        return Err(EncoderError::InsufficientData);
    }
    let ghost s = unread(*reader);
    let tag = get_u8(reader);
    let ghost rest = unread(*reader);
    if tag <= TAG_U8_127 || tag == TAG_NONE || tag == TAG_STRUCT_UNIT || tag == TAG_JSON_NULL {
        Ok(())
    } else if tag == TAG_SOME {
        let r = skip_value(reader);
        proof {
            match skip_len(rest) {
                Ok(n) => lemma_skip_twice(s, 1, n),
                Err(_) => {},
            }
        }
        r
    } else if tag == TAG_NEGATIVE {
        proof {
            lemma_parse_uint_bounds(rest, 128);
        }
        match u128::decode(reader) {
            Ok(_) => {
                proof {
                    match parse_uint(rest, 128) {
                        Ok((_, n)) => lemma_skip_twice(s, 1, n),
                        Err(_) => {},
                    }
                }
                Ok(())
            },
            Err(e) => Err(e),
        }
    } else if tag == TAG_U8 || tag == TAG_U16 || tag == TAG_U32 || tag == TAG_U64 || tag
        == TAG_U128 || tag == TAG_F32 || tag == TAG_F64 || tag == TAG_UUID {
        skip_fixed_payload(tag, reader, Ghost(s))
    } else if tag >= TAG_STRING_BASE && tag <= TAG_BINARY {
        skip_length_payload(tag, reader, Ghost(s))
    } else if (tag >= TAG_ARRAY_VEC_SET_BASE && tag <= TAG_ARRAY_VEC_SET_LONG) || tag
        == TAG_STRUCT_UNNAMED || tag == TAG_TUPLE || tag == TAG_JSON_ARRAY || tag == TAG_MAP
        || tag == TAG_JSON_OBJECT {
        skip_counted_payload(tag, reader, Ghost(s))
    } else if tag == TAG_STRUCT_NAMED {
        let r = skip_named_fields(reader);
        proof {
            match skip_fields(rest) {
                Ok(n) => lemma_skip_twice(s, 1, n),
                Err(_) => {},
            }
        }
        r
    } else if tag == TAG_ENUM || tag == TAG_ENUM_NAMED || tag == TAG_ENUM_UNNAMED {
        skip_enum_payload(tag, reader, Ghost(s))
    } else if tag == TAG_CHRONO_DATETIME || tag == TAG_DECIMAL || tag == TAG_CHRONO_NAIVE_TIME
        || tag == TAG_CHRONO_NAIVE_DATE {
        skip_number_payload(tag, reader, Ghost(s))
    } else if tag == TAG_JSON_BOOL || tag == TAG_JSON_NUMBER || tag == TAG_JSON_STRING {
        skip_json_payload(tag, reader, Ghost(s))
    } else {
        Err(
            EncoderError::Decode(
                with_number("skip_value: unknown or unhandled tag ", tag as u128),
            ),
        )
    }
}

} // verus!
