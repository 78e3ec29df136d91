//! The wire format as mathematics: what each value is written as, and what
//! each byte sequence is read as.
//!
//! `wire` gives the bytes of a value of a shape, `parse` what a decoder of a
//! shape makes of the front of a byte sequence, and `skip_len` how many bytes
//! the value at the front of a sequence takes, whatever its shape. The
//! executable codec is verified against these functions.

use vstd::prelude::*;
use vstd::utf8::{decode_utf8, encode_utf8, valid_utf8};
use crate::error::Fault;
use crate::le::{le_bytes, le_value};
use crate::model::{Datum, Mode};
use crate::tag::{
    TAG_ARRAY_VEC_SET_BASE, TAG_ARRAY_VEC_SET_LONG, TAG_BINARY, TAG_F32, TAG_F64, TAG_ONE,
    TAG_STRING_BASE, TAG_STRING_LONG, TAG_ZERO,
};
use crate::varint::{parse_uint, uint_wire};

verus! {

/// `s` without its first `n` bytes; empty when `s` is shorter.
pub open spec fn tail(s: Seq<u8>, n: nat) -> Seq<u8> {
    if n <= s.len() {
        s.skip(n as int)
    } else {
        Seq::empty()
    }
}

/// Dropping `a` bytes and then `b` more is dropping `a + b`.
pub proof fn lemma_skip_twice(s: Seq<u8>, a: nat, b: nat)
    requires
        a + b <= s.len(),
    ensures
        s.skip(a as int).skip(b as int) == s.skip((a + b) as int),
        tail(tail(s, a), b) == tail(s, a + b),
        tail(s, a + b) == s.skip((a + b) as int),
{
    assert(s.skip(a as int).skip(b as int) =~= s.skip((a + b) as int));
}

/// The width in bits of the pointer-sized integers, as the codec sees it.
pub open spec fn word_bits() -> nat {
    if usize::MAX > 0xFFFF_FFFF {
        64
    } else {
        32
    }
}

// ---------------------------------------------------------------------
// Leaves
// ---------------------------------------------------------------------
/// The identifier `id` as written before a field or after an enum tag:
/// 0 is the terminator, 1 to 250 take one byte, anything else the marker 255
/// and eight little-endian bytes.
pub open spec fn id_wire(id: u64) -> Seq<u8> {
    if id <= 250 {
        seq![id as u8]
    } else {
        seq![255u8] + le_bytes(id as nat, 8)
    }
}

/// The identifier at the front of `s` and the bytes it takes.
pub open spec fn parse_id(s: Seq<u8>) -> Result<(u64, nat), Fault> {
    if s.len() < 1 {
        Err(Fault::InsufficientData)
    } else if s[0] == 255 {
        if s.len() < 9 {
            Err(Fault::InsufficientData)
        } else {
            Ok((le_value(s.subrange(1, 9)) as u64, 9nat))
        }
    } else {
        Ok((s[0] as u64, 1nat))
    }
}

/// A boolean: the tag 0 or 1.
pub open spec fn bool_wire(b: bool) -> Seq<u8> {
    seq![if b { TAG_ONE } else { TAG_ZERO }]
}

/// Reading a boolean. Tagged mode accepts 0 and 1 only; packed mode reads
/// any byte but 0 as `true`.
pub open spec fn parse_bool(mode: Mode, s: Seq<u8>) -> Result<(bool, nat), Fault> {
    if s.len() == 0 {
        Err(Fault::InsufficientData)
    } else if s[0] == TAG_ZERO {
        Ok((false, 1nat))
    } else if s[0] == TAG_ONE || mode == Mode::Packed {
        Ok((true, 1nat))
    } else {
        Err(Fault::Decode)
    }
}

/// A float of `width` bytes with bit pattern `bits`: in tagged mode its tag,
/// then the bit pattern in little-endian order.
pub open spec fn float_wire(mode: Mode, tag: u8, bits: nat, width: nat) -> Seq<u8> {
    if mode == Mode::Tagged {
        seq![tag] + le_bytes(bits, width)
    } else {
        le_bytes(bits, width)
    }
}

/// Reading a 32-bit float. In tagged mode a 64-bit float is accepted too and
/// comes back as it is, for the caller to narrow.
pub open spec fn parse_f32(mode: Mode, s: Seq<u8>) -> Result<(Datum, nat), Fault> {
    if mode == Mode::Packed {
        if s.len() < 4 {
            Err(Fault::InsufficientData)
        } else {
            Ok((Datum::F32(le_value(s.take(4)) as u32), 4nat))
        }
    } else if s.len() == 0 {
        Err(Fault::InsufficientData)
    } else if s[0] == TAG_F32 {
        if s.len() < 5 {
            Err(Fault::InsufficientData)
        } else {
            Ok((Datum::F32(le_value(s.subrange(1, 5)) as u32), 5nat))
        }
    } else if s[0] == TAG_F64 {
        if s.len() < 9 {
            Err(Fault::InsufficientData)
        } else {
            Ok((Datum::F64(le_value(s.subrange(1, 9)) as u64), 9nat))
        }
    } else {
        Err(Fault::Decode)
    }
}

/// Reading a 64-bit float. A 32-bit float is not accepted.
pub open spec fn parse_f64(mode: Mode, s: Seq<u8>) -> Result<(Datum, nat), Fault> {
    if mode == Mode::Packed {
        if s.len() < 8 {
            Err(Fault::InsufficientData)
        } else {
            Ok((Datum::F64(le_value(s.take(8)) as u64), 8nat))
        }
    } else if s.len() == 0 {
        Err(Fault::InsufficientData)
    } else if s[0] == TAG_F64 {
        if s.len() < 9 {
            Err(Fault::InsufficientData)
        } else {
            Ok((Datum::F64(le_value(s.subrange(1, 9)) as u64), 9nat))
        }
    } else {
        Err(Fault::Decode)
    }
}

/// Whether a number is that of a character: a code point that is no
/// surrogate.
pub open spec fn is_scalar(v: nat) -> bool {
    v <= 0xD7FF || 0xE000 <= v <= 0x10FFFF
}

/// A character is written as the number of its code point.
pub open spec fn char_wire(c: char) -> Seq<u8> {
    uint_wire(c as u32 as nat)
}

/// Reading a character: a number of at most 32 bits that is a code point
/// and no surrogate.
pub open spec fn parse_char(s: Seq<u8>) -> Result<(char, nat), Fault> {
    match parse_uint(s, 32) {
        Err(f) => Err(f),
        Ok((v, n)) => if is_scalar(v) {
            Ok((v as u32 as char, n))
        } else {
            Err(Fault::Decode)
        },
    }
}

/// Text: up to 40 bytes of UTF-8 carry their length in the tag, longer text
/// the long tag and an encoded length.
pub open spec fn text_wire(chars: Seq<char>) -> Seq<u8> {
    let bytes = encode_utf8(chars);
    if bytes.len() <= 40 {
        seq![(TAG_STRING_BASE + bytes.len()) as u8] + bytes
    } else {
        seq![TAG_STRING_LONG] + uint_wire(bytes.len()) + bytes
    }
}

/// The length that the text tag `tag` announces, read from the bytes `s`
/// that follow it, and the bytes that the length takes.
pub open spec fn parse_text_len_payload(tag: u8, s: Seq<u8>) -> Result<(nat, nat), Fault> {
    if TAG_STRING_BASE <= tag < TAG_STRING_LONG {
        Ok(((tag - TAG_STRING_BASE) as nat, 0nat))
    } else if tag == TAG_STRING_LONG {
        parse_uint(s, word_bits())
    } else {
        Err(Fault::Decode)
    }
}

/// The length that a text tag at the front of `s` announces, and the bytes
/// that the tag and the length take.
pub open spec fn parse_text_len(s: Seq<u8>) -> Result<(nat, nat), Fault> {
    if s.len() == 0 {
        Err(Fault::InsufficientData)
    } else {
        match parse_text_len_payload(s[0], s.skip(1)) {
            Ok((len, n)) => Ok((len, n + 1)),
            Err(f) => Err(f),
        }
    }
}

/// Reading text: the announced bytes must be there and be valid UTF-8.
pub open spec fn parse_text(s: Seq<u8>) -> Result<(Seq<char>, nat), Fault> {
    match parse_text_len(s) {
        Err(f) => Err(f),
        Ok((len, n)) => {
            let rest = tail(s, n);
            if rest.len() < len {
                Err(Fault::InsufficientData)
            } else if !valid_utf8(rest.take(len as int)) {
                Err(Fault::Decode)
            } else {
                Ok((decode_utf8(rest.take(len as int)), n + len))
            }
        },
    }
}

/// Raw bytes: the binary tag, the encoded length, the bytes.
pub open spec fn blob_wire(bytes: Seq<u8>) -> Seq<u8> {
    seq![TAG_BINARY] + uint_wire(bytes.len()) + bytes
}

/// The length that follows the binary tag, and the bytes that tag and length
/// take.
pub open spec fn parse_binary_len(s: Seq<u8>) -> Result<(nat, nat), Fault> {
    if s.len() == 0 {
        Err(Fault::InsufficientData)
    } else if s[0] == TAG_BINARY {
        match parse_uint(s.skip(1), word_bits()) {
            Ok((len, n)) => Ok((len, n + 1)),
            Err(f) => Err(f),
        }
    } else {
        Err(Fault::Decode)
    }
}

/// The announced number of bytes after a length prefix that took `n` bytes.
pub open spec fn take_bytes(s: Seq<u8>, len: nat, n: nat) -> Result<(Seq<u8>, nat), Fault> {
    let rest = tail(s, n);
    if rest.len() < len {
        Err(Fault::InsufficientData)
    } else {
        Ok((rest.take(len as int), n + len))
    }
}

/// Reading a vector of bytes: only the binary tag is accepted.
pub open spec fn parse_byte_vector(s: Seq<u8>) -> Result<(Seq<u8>, nat), Fault> {
    match parse_binary_len(s) {
        Err(f) => Err(f),
        Ok((len, n)) => take_bytes(s, len, n),
    }
}

/// Reading raw bytes: the binary tag and both text tags are accepted.
pub open spec fn parse_blob(s: Seq<u8>) -> Result<(Seq<u8>, nat), Fault> {
    if s.len() > 0 && s[0] == TAG_BINARY {
        parse_byte_vector(s)
    } else {
        match parse_text_len(s) {
            Err(f) => Err(f),
            Ok((len, n)) => take_bytes(s, len, n),
        }
    }
}

/// The length prefix of a sequence: up to 5 elements carry their number in
/// the tag, longer sequences the long tag and an encoded length.
pub open spec fn seq_len_wire(len: nat) -> Seq<u8> {
    if len <= 5 {
        seq![(TAG_ARRAY_VEC_SET_BASE + len) as u8]
    } else {
        seq![TAG_ARRAY_VEC_SET_LONG] + uint_wire(len)
    }
}

/// The length of a sequence whose tag `tag` has been consumed, read from the
/// bytes `s` that follow, and the bytes it takes.
pub open spec fn parse_seq_len_payload(tag: u8, s: Seq<u8>) -> Result<(nat, nat), Fault> {
    if TAG_ARRAY_VEC_SET_BASE <= tag < TAG_ARRAY_VEC_SET_LONG {
        Ok(((tag - TAG_ARRAY_VEC_SET_BASE) as nat, 0nat))
    } else if tag == TAG_ARRAY_VEC_SET_LONG {
        parse_uint(s, word_bits())
    } else {
        Err(Fault::Decode)
    }
}

/// The length prefix of a sequence at the front of `s`.
pub open spec fn parse_seq_len(s: Seq<u8>) -> Result<(nat, nat), Fault> {
    if s.len() == 0 {
        Err(Fault::InsufficientData)
    } else {
        match parse_seq_len_payload(s[0], s.skip(1)) {
            Ok((len, n)) => Ok((len, n + 1)),
            Err(f) => Err(f),
        }
    }
}

/// The tag `tag` followed by an encoded count, at the front of `s`.
pub open spec fn parse_counted(tag: u8, s: Seq<u8>) -> Result<(nat, nat), Fault> {
    if s.len() == 0 {
        Err(Fault::InsufficientData)
    } else if s[0] != tag {
        Err(Fault::Decode)
    } else {
        match parse_uint(s.skip(1), word_bits()) {
            Ok((len, n)) => Ok((len, n + 1)),
            Err(f) => Err(f),
        }
    }
}

} // verus!
