//! Variable-width integers.
//!
//! An unsigned value up to 127 is its own tag. Larger values take the
//! smallest marker whose payload holds them: one byte holding the value minus
//! 128, or 2, 4, 8 or 16 little-endian bytes. A negative value is the
//! negative marker followed by its bit-inverted magnitude as an unsigned
//! value. The encoding does not depend on the width of the integer type; a
//! decoder of a given width accepts every marker up to its own.

use bytes::Bytes;
use vstd::prelude::*;
use crate::buffer::{get_u128_le, get_u16_le, get_u32_le, get_u64_le, get_u8, remaining, unread};
use crate::error::{EncoderError, Fault};
use crate::le::{le_bytes, le_value, lemma_le_value_bound, lemma_radix_values};
use crate::tag::{TAG_NEGATIVE, TAG_U128, TAG_U16, TAG_U32, TAG_U64, TAG_U8, TAG_U8_127};
use crate::text::with_number;

verus! {

/// The encoding of the unsigned value `v`, which must be below 2^128.
pub open spec fn uint_wire(v: nat) -> Seq<u8> {
    if v <= 127 {
        seq![v as u8]
    } else if v <= 383 {
        seq![TAG_U8, (v - 128) as u8]
    } else if v <= 0xFFFF {
        seq![TAG_U16] + le_bytes(v, 2)
    } else if v <= 0xFFFF_FFFF {
        seq![TAG_U32] + le_bytes(v, 4)
    } else if v <= 0xFFFF_FFFF_FFFF_FFFF {
        seq![TAG_U64] + le_bytes(v, 8)
    } else {
        seq![TAG_U128] + le_bytes(v, 16)
    }
}

/// The encoding of the signed value `v`: as unsigned when it is not
/// negative, else the negative marker and the encoding of `-(v + 1)`, the
/// magnitude with its bits inverted.
pub open spec fn int_wire(v: int) -> Seq<u8> {
    if v >= 0 {
        uint_wire(v as nat)
    } else {
        seq![TAG_NEGATIVE] + uint_wire((-(v + 1)) as nat)
    }
}

/// The largest value of an unsigned type of `bits` bits.
pub open spec fn uint_max(bits: nat) -> nat {
    if bits == 8 {
        0xFF
    } else if bits == 16 {
        0xFFFF
    } else if bits == 32 {
        0xFFFF_FFFF
    } else if bits == 64 {
        0xFFFF_FFFF_FFFF_FFFF
    } else {
        0xFFFF_FFFF_FFFF_FFFF_FFFF_FFFF_FFFF_FFFF
    }
}

/// The largest value of a signed type of `bits` bits.
pub open spec fn int_max(bits: nat) -> nat {
    uint_max(bits) / 2
}

/// What a decoder of `bits` bits (8, 16, 32, 64 or 128) reads after the tag
/// `tag`, from the bytes `s` that follow it: the value and the number of
/// payload bytes, or the failure.
///
/// A tag up to 127 is the value. The one-byte marker is accepted by every
/// width, but an 8-bit decoder rejects a payload above 127, whose value would
/// not fit. A wider marker is accepted by the widths that can hold every
/// value it may carry.
pub open spec fn parse_uint_payload(tag: u8, s: Seq<u8>, bits: nat) -> Result<(nat, nat), Fault> {
    if tag <= TAG_U8_127 {
        Ok((tag as nat, 0nat))
    } else if tag == TAG_U8 {
        if s.len() < 1 {
            Err(Fault::InsufficientData)
        } else if bits == 8 && s[0] > 127 {
            Err(Fault::Decode)
        } else {
            Ok((s[0] as nat + 128, 1nat))
        }
    } else if tag == TAG_U16 && bits >= 16 {
        if s.len() < 2 {
            Err(Fault::InsufficientData)
        } else {
            Ok((le_value(s.take(2)), 2nat))
        }
    } else if tag == TAG_U32 && bits >= 32 {
        if s.len() < 4 {
            Err(Fault::InsufficientData)
        } else {
            Ok((le_value(s.take(4)), 4nat))
        }
    } else if tag == TAG_U64 && bits >= 64 {
        if s.len() < 8 {
            Err(Fault::InsufficientData)
        } else {
            Ok((le_value(s.take(8)), 8nat))
        }
    } else if tag == TAG_U128 && bits >= 128 {
        if s.len() < 16 {
            Err(Fault::InsufficientData)
        } else {
            Ok((le_value(s.take(16)), 16nat))
        }
    } else {
        Err(Fault::Decode)
    }
}

/// What a decoder of an unsigned type of `bits` bits reads from the front of
/// `s`: the value and the number of bytes it takes, or the failure.
pub open spec fn parse_uint(s: Seq<u8>, bits: nat) -> Result<(nat, nat), Fault> {
    if s.len() == 0 {
        Err(Fault::InsufficientData)
    } else {
        match parse_uint_payload(s[0], s.skip(1), bits) {
            Ok((v, n)) => Ok((v, n + 1)),
            Err(f) => Err(f),
        }
    }
}

/// The signed value that the bit-inverted magnitude `inv` stands for in a
/// type of `bits` bits: `inv` with its bits inverted, read as two's
/// complement. Up to the signed maximum this is `-(inv + 1)`.
pub open spec fn revert(inv: nat, bits: nat) -> int {
    if inv <= int_max(bits) {
        -(inv as int) - 1
    } else {
        uint_max(bits) - inv
    }
}

/// What a decoder of a signed type of `bits` bits reads from the front of
/// `s`: the value and the number of bytes it takes, or the failure.
///
/// After the negative marker a whole unsigned value of the same width
/// follows. Without the marker, an unsigned value above the signed maximum
/// is rejected.
pub open spec fn parse_int(s: Seq<u8>, bits: nat) -> Result<(int, nat), Fault> {
    if s.len() == 0 {
        Err(Fault::InsufficientData)
    } else if s[0] == TAG_NEGATIVE {
        match parse_uint(s.skip(1), bits) {
            Ok((inv, n)) => Ok((revert(inv, bits), n + 1)),
            Err(f) => Err(f),
        }
    } else {
        match parse_uint_payload(s[0], s.skip(1), bits) {
            Ok((v, n)) => if v > int_max(bits) {
                Err(Fault::Decode)
            } else {
                Ok((v as int, n + 1))
            },
            Err(f) => Err(f),
        }
    }
}

/// A parsed unsigned value fits its width, and the bytes it took were there.
pub proof fn lemma_parse_uint_payload_bounds(tag: u8, s: Seq<u8>, bits: nat)
    requires
        bits == 8 || bits == 16 || bits == 32 || bits == 64 || bits == 128,
    ensures
        parse_uint_payload(tag, s, bits) matches Ok((v, n)) ==> v <= uint_max(bits) && n <= s.len(),
{
    lemma_radix_values();
    if s.len() >= 2 {
        lemma_le_value_bound(s.take(2));
    }
    if s.len() >= 4 {
        lemma_le_value_bound(s.take(4));
    }
    if s.len() >= 8 {
        lemma_le_value_bound(s.take(8));
    }
    if s.len() >= 16 {
        lemma_le_value_bound(s.take(16));
    }
}

/// A parsed unsigned value fits its width and took at least the tag and at
/// most what was there.
pub proof fn lemma_parse_uint_bounds(s: Seq<u8>, bits: nat)
    requires
        bits == 8 || bits == 16 || bits == 32 || bits == 64 || bits == 128,
    ensures
        parse_uint(s, bits) matches Ok((v, n)) ==> v <= uint_max(bits) && 1 <= n <= s.len(),
{
    if s.len() > 0 {
        lemma_parse_uint_payload_bounds(s[0], s.skip(1), bits);
    }
}

/// A parsed signed value fits its width and took at least the tag and at
/// most what was there.
pub proof fn lemma_parse_int_bounds(s: Seq<u8>, bits: nat)
    requires
        bits == 8 || bits == 16 || bits == 32 || bits == 64 || bits == 128,
    ensures
        parse_int(s, bits) matches Ok((v, n)) ==> -int_max(bits) - 1 <= v <= int_max(bits) && 1
            <= n <= s.len(),
{
    if s.len() > 0 {
        lemma_parse_uint_payload_bounds(s[0], s.skip(1), bits);
        lemma_parse_uint_bounds(s.skip(1), bits);
    }
}

/// Reads the payload of an unsigned 8-bit value whose tag has been consumed.
pub fn decode_u8_from_tag(tag: u8, reader: &mut Bytes) -> (r: Result<u8, EncoderError>)
    ensures
        match parse_uint_payload(tag, unread(*old(reader)), 8) {
            Ok((v, n)) => r matches Ok(x) && x == v && unread(*final(reader)) == unread(
                *old(reader),
            ).skip(n as int),
            Err(f) => r matches Err(e) && e@ == f,
        },
{
    if tag <= TAG_U8_127 {
        proof {
            assert(unread(*reader).skip(0) =~= unread(*reader));
        }
        Ok(tag)
    } else if tag == TAG_U8 {
        if remaining(reader) < 1 {
            return Err(EncoderError::InsufficientData);
        }
        let stored = get_u8(reader);
        if stored > 127 {
            return Err(
                EncoderError::Decode(with_number("u8 TAG_U8 value overflow: ", stored as u128)),
            );
        }
        Ok(stored + 128)
    } else {
        Err(EncoderError::Decode(with_number("Unexpected tag for u8: ", tag as u128)))
    }
}

/// Reads the payload of an unsigned 16-bit value whose tag has been consumed.
pub fn decode_u16_from_tag(tag: u8, reader: &mut Bytes) -> (r: Result<u16, EncoderError>)
    ensures
        match parse_uint_payload(tag, unread(*old(reader)), 16) {
            Ok((v, n)) => r matches Ok(x) && x == v && unread(*final(reader)) == unread(
                *old(reader),
            ).skip(n as int),
            Err(f) => r matches Err(e) && e@ == f,
        },
{
    if tag <= TAG_U8_127 {
        proof {
            assert(unread(*reader).skip(0) =~= unread(*reader));
        }
        Ok(tag as u16)
    } else if tag == TAG_U8 {
        if remaining(reader) < 1 {
            return Err(EncoderError::InsufficientData);
        }
        Ok(get_u8(reader) as u16 + 128)
    } else if tag == TAG_U16 {
        if remaining(reader) < 2 {
            return Err(EncoderError::InsufficientData);
        }
        Ok(get_u16_le(reader))
    } else {
        Err(EncoderError::Decode(with_number("Unexpected tag for u16: ", tag as u128)))
    }
}

/// Reads the payload of an unsigned 32-bit value whose tag has been consumed.
pub fn decode_u32_from_tag(tag: u8, reader: &mut Bytes) -> (r: Result<u32, EncoderError>)
    ensures
        match parse_uint_payload(tag, unread(*old(reader)), 32) {
            Ok((v, n)) => r matches Ok(x) && x == v && unread(*final(reader)) == unread(
                *old(reader),
            ).skip(n as int),
            Err(f) => r matches Err(e) && e@ == f,
        },
{
    if tag <= TAG_U8_127 {
        proof {
            assert(unread(*reader).skip(0) =~= unread(*reader));
        }
        Ok(tag as u32)
    } else if tag == TAG_U8 {
        if remaining(reader) < 1 {
            return Err(EncoderError::InsufficientData);
        }
        Ok(get_u8(reader) as u32 + 128)
    } else if tag == TAG_U16 {
        if remaining(reader) < 2 {
            return Err(EncoderError::InsufficientData);
        }
        Ok(get_u16_le(reader) as u32)
    } else if tag == TAG_U32 {
        if remaining(reader) < 4 {
            return Err(EncoderError::InsufficientData);
        }
        Ok(get_u32_le(reader))
    } else {
        Err(EncoderError::Decode(with_number("Unexpected tag for u32: ", tag as u128)))
    }
}

/// Reads the payload of an unsigned 64-bit value whose tag has been consumed.
pub fn decode_u64_from_tag(tag: u8, reader: &mut Bytes) -> (r: Result<u64, EncoderError>)
    ensures
        match parse_uint_payload(tag, unread(*old(reader)), 64) {
            Ok((v, n)) => r matches Ok(x) && x == v && unread(*final(reader)) == unread(
                *old(reader),
            ).skip(n as int),
            Err(f) => r matches Err(e) && e@ == f,
        },
{
    if tag <= TAG_U8_127 {
        proof {
            assert(unread(*reader).skip(0) =~= unread(*reader));
        }
        Ok(tag as u64)
    } else if tag == TAG_U8 {
        if remaining(reader) < 1 {
            return Err(EncoderError::InsufficientData);
        }
        Ok(get_u8(reader) as u64 + 128)
    } else if tag == TAG_U16 {
        if remaining(reader) < 2 {
            return Err(EncoderError::InsufficientData);
        }
        Ok(get_u16_le(reader) as u64)
    } else if tag == TAG_U32 {
        if remaining(reader) < 4 {
            return Err(EncoderError::InsufficientData);
        }
        Ok(get_u32_le(reader) as u64)
    } else if tag == TAG_U64 {
        if remaining(reader) < 8 {
            return Err(EncoderError::InsufficientData);
        }
        Ok(get_u64_le(reader))
    } else {
        Err(EncoderError::Decode(with_number("Unexpected tag for u64: ", tag as u128)))
    }
}

/// Reads the payload of an unsigned 128-bit value whose tag has been consumed.
pub fn decode_u128_from_tag(tag: u8, reader: &mut Bytes) -> (r: Result<u128, EncoderError>)
    ensures
        match parse_uint_payload(tag, unread(*old(reader)), 128) {
            Ok((v, n)) => r matches Ok(x) && x == v && unread(*final(reader)) == unread(
                *old(reader),
            ).skip(n as int),
            Err(f) => r matches Err(e) && e@ == f,
        },
{
    if tag <= TAG_U8_127 {
        proof {
            assert(unread(*reader).skip(0) =~= unread(*reader));
        }
        Ok(tag as u128)
    } else if tag == TAG_U8 {
        if remaining(reader) < 1 {
            return Err(EncoderError::InsufficientData);
        }
        Ok(get_u8(reader) as u128 + 128)
    } else if tag == TAG_U16 {
        if remaining(reader) < 2 {
            return Err(EncoderError::InsufficientData);
        }
        Ok(get_u16_le(reader) as u128)
    } else if tag == TAG_U32 {
        if remaining(reader) < 4 {
            return Err(EncoderError::InsufficientData);
        }
        Ok(get_u32_le(reader) as u128)
    } else if tag == TAG_U64 {
        if remaining(reader) < 8 {
            return Err(EncoderError::InsufficientData);
        }
        Ok(get_u64_le(reader) as u128)
    } else if tag == TAG_U128 {
        if remaining(reader) < 16 {
            return Err(EncoderError::InsufficientData);
        }
        Ok(get_u128_le(reader))
    } else {
        Err(EncoderError::Decode(with_number("Unexpected tag for u128: ", tag as u128)))
    }
}

} // verus!
