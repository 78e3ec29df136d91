//! The codec traits and their implementations for the built-in types.
//!
//! [`Encoder`] and [`Decoder`] are the tagged protocol, [`Packer`] and
//! [`Unpacker`] the packed one. Each implementation says which [`Shape`] the
//! type has and which [`Datum`] a value of it is; the contracts of the
//! methods then follow from `wire` and `parse`.

use bytes::{Bytes, BytesMut};
use std::sync::Arc;
use vstd::prelude::*;
use vstd::utf8::{decode_utf8, valid_utf8};
use crate::buffer::{
    bytes_len, copy_to_vec, freeze, get_u32_le, get_u64_le, get_u8, new_writer, put_bytes, put_slice, put_u128_le,
    put_u16_le, put_u32_le, put_u64_le, put_u8, remaining, split_to, unread, written,
};
use crate::error::{EncoderError, Fault};
use crate::format::{
    all_zero, conform_all, conforms, is_zero, parse, parse_repeat, prepend, wire, wire_all,
};
use crate::laws::faithful;
use crate::schema::valid;
use crate::model::{Datum, Mode, Shape};
use crate::spec::{
    blob_wire, is_scalar, lemma_skip_twice, parse_seq_len_payload, parse_text_len_payload,
    seq_len_wire, tail, text_wire, word_bits,
};
use crate::tag::{
    TAG_ARRAY_VEC_SET_BASE, TAG_ARRAY_VEC_SET_LONG, TAG_BINARY, TAG_F32, TAG_F64, TAG_NEGATIVE,
    TAG_NONE, TAG_ONE, TAG_SOME, TAG_STRING_BASE, TAG_STRING_LONG, TAG_U128, TAG_U16, TAG_U32,
    TAG_U64, TAG_U8, TAG_ZERO,
};
use crate::text::{around_number, decimal, number_text, with_number};
use crate::varint::{
    decode_u128_from_tag, decode_u16_from_tag, decode_u32_from_tag, decode_u64_from_tag,
    decode_u8_from_tag, lemma_parse_uint_bounds, lemma_parse_uint_payload_bounds, parse_uint,
    parse_uint_payload, uint_wire,
};

verus! {

/// Whether `d` is a value of `shape` that reading in `mode` gives back from
/// what it was written as.
pub open spec fn sound(mode: Mode, shape: Shape, d: Datum) -> bool {
    conforms(mode, shape, d) && faithful(mode, shape, d)
}

/// A type with a place in the data model.
pub trait Shaped {
    /// The shape of the type.
    spec fn shape() -> Shape;

    /// What a value of the type is.
    spec fn datum(&self) -> Datum;

    /// The shape can be used in both modes: it holds no declaration that
    /// opts out or has an identifier that is 0 or repeated.
    proof fn lemma_valid()
        ensures
            valid(Mode::Tagged, Self::shape()),
            valid(Mode::Packed, Self::shape()),
    ;
}

/// A type whose vectors are written element by element. Every shape but
/// `U8` is: a vector of bytes is written as raw bytes.
pub trait Element: Shaped {
    proof fn lemma_not_byte()
        ensures
            !(Self::shape() is U8),
    ;
}

/// Encoding in tagged mode.
pub trait Encoder: Shaped {
    /// Whether this value can be encoded. Every value of the built-in types
    /// can.
    spec fn encodable(&self) -> bool;

    /// Appends the encoding of the value to `writer`. What was encoded is a
    /// value of the type's shape that decoding gives back as it was.
    fn encode(&self, writer: &mut BytesMut) -> (r: Result<(), EncoderError>)
        ensures
            r is Ok <==> self.encodable(),
            r is Ok ==> written(*final(writer)) == written(*old(writer)) + wire(
                Mode::Tagged,
                Self::shape(),
                self.datum(),
            ),
            r is Ok ==> sound(Mode::Tagged, Self::shape(), self.datum()),
    ;

    /// Whether the value is the default of its type.
    fn is_default(&self) -> (r: bool)
        ensures
            r == is_zero(Self::shape(), self.datum()),
    ;
}

/// Decoding in tagged mode.
pub trait Decoder: Shaped + Sized {
    /// Takes one value from the front of `reader`.
    fn decode(reader: &mut Bytes) -> (r: Result<Self, EncoderError>)
        ensures
            match parse(Mode::Tagged, Self::shape(), unread(*old(reader))) {
                Ok((d, n)) => r matches Ok(v) && v.datum() == d && n <= unread(*old(reader)).len()
                    && unread(*final(reader)) == unread(*old(reader)).skip(n as int),
                Err(f) => r matches Err(e) && e@ == f,
            },
    ;
}

/// Encoding in packed mode.
pub trait Packer: Shaped {
    /// Whether this value can be packed. Every value of the built-in types
    /// can.
    spec fn packable(&self) -> bool;

    /// Appends the packed form of the value to `writer`. What was packed is
    /// a value of the type's shape that unpacking gives back as it was.
    fn pack(&self, writer: &mut BytesMut) -> (r: Result<(), EncoderError>)
        ensures
            r is Ok <==> self.packable(),
            r is Ok ==> written(*final(writer)) == written(*old(writer)) + wire(
                Mode::Packed,
                Self::shape(),
                self.datum(),
            ),
            r is Ok ==> sound(Mode::Packed, Self::shape(), self.datum()),
    ;
}

/// Decoding in packed mode.
pub trait Unpacker: Shaped + Sized {
    /// Takes one packed value from the front of `reader`.
    fn unpack(reader: &mut Bytes) -> (r: Result<Self, EncoderError>)
        ensures
            match parse(Mode::Packed, Self::shape(), unread(*old(reader))) {
                Ok((d, n)) => r matches Ok(v) && v.datum() == d && n <= unread(*old(reader)).len()
                    && unread(*final(reader)) == unread(*old(reader)).skip(n as int),
                Err(f) => r matches Err(e) && e@ == f,
            },
    ;
}

/// Encodes a value into a fresh buffer.
pub fn encode<T: Encoder>(value: &T) -> (r: Result<Bytes, EncoderError>)
    ensures
        r is Ok <==> value.encodable(),
        r matches Ok(out) ==> unread(out) == wire(Mode::Tagged, T::shape(), value.datum()),
        r is Ok ==> sound(Mode::Tagged, T::shape(), value.datum()),
{
    let mut writer = new_writer();
    match value.encode(&mut writer) {
        Ok(()) => {
            proof {
                assert(Seq::<u8>::empty() + wire(Mode::Tagged, T::shape(), value.datum()) =~= wire(
                    Mode::Tagged,
                    T::shape(),
                    value.datum(),
                ));
            }
            Ok(freeze(writer))
        },
        Err(e) => Err(e),
    }
}

/// Decodes a value from the front of `reader`.
pub fn decode<T: Decoder>(reader: &mut Bytes) -> (r: Result<T, EncoderError>)
    ensures
        match parse(Mode::Tagged, T::shape(), unread(*old(reader))) {
            Ok((d, n)) => r matches Ok(v) && v.datum() == d && n <= unread(*old(reader)).len()
                && unread(*final(reader)) == unread(*old(reader)).skip(n as int),
            Err(f) => r matches Err(e) && e@ == f,
        },
{
    T::decode(reader)
}

/// Packs a value into a fresh buffer.
pub fn pack<T: Packer>(value: &T) -> (r: Result<Bytes, EncoderError>)
    ensures
        r is Ok <==> value.packable(),
        r matches Ok(out) ==> unread(out) == wire(Mode::Packed, T::shape(), value.datum()),
        r is Ok ==> sound(Mode::Packed, T::shape(), value.datum()),
{
    let mut writer = new_writer();
    match value.pack(&mut writer) {
        Ok(()) => {
            proof {
                assert(Seq::<u8>::empty() + wire(Mode::Packed, T::shape(), value.datum()) =~= wire(
                    Mode::Packed,
                    T::shape(),
                    value.datum(),
                ));
            }
            Ok(freeze(writer))
        },
        Err(e) => Err(e),
    }
}

/// Unpacks a value from the front of `reader`.
pub fn unpack<T: Unpacker>(reader: &mut Bytes) -> (r: Result<T, EncoderError>)
    ensures
        match parse(Mode::Packed, T::shape(), unread(*old(reader))) {
            Ok((d, n)) => r matches Ok(v) && v.datum() == d && n <= unread(*old(reader)).len()
                && unread(*final(reader)) == unread(*old(reader)).skip(n as int),
            Err(f) => r matches Err(e) && e@ == f,
        },
{
    T::unpack(reader)
}

// ---------------------------------------------------------------------
// bool
// ---------------------------------------------------------------------
impl Shaped for bool {
    open spec fn shape() -> Shape {
        Shape::Bool
    }

    open spec fn datum(&self) -> Datum {
        Datum::Bool(*self)
    }

    proof fn lemma_valid() {
    }
}

impl Element for bool {
    proof fn lemma_not_byte() {
    }
}

impl Encoder for bool {
    open spec fn encodable(&self) -> bool {
        true
    }

    fn encode(&self, writer: &mut BytesMut) -> (r: Result<(), EncoderError>) {
        let tag = if !*self {
            TAG_ZERO
        } else {
            TAG_ONE
        };
        put_u8(writer, tag);
        Ok(())
    }

    fn is_default(&self) -> (r: bool) {
        !*self
    }
}

impl Decoder for bool {
    fn decode(reader: &mut Bytes) -> (r: Result<Self, EncoderError>) {
        if remaining(reader) == 0 {
            return Err(EncoderError::InsufficientData);
        }
        let tag = get_u8(reader);
        if tag == TAG_ZERO {
            Ok(false)
        } else if tag == TAG_ONE {
            Ok(true)
        } else {
            Err(EncoderError::Decode(with_number("Expected bool tag (0 or 1), got ", tag as u128)))
        }
    }
}

impl Packer for bool {
    open spec fn packable(&self) -> bool {
        true
    }

    fn pack(&self, writer: &mut BytesMut) -> (r: Result<(), EncoderError>) {
        let tag = if !*self {
            TAG_ZERO
        } else {
            TAG_ONE
        };
        put_u8(writer, tag);
        Ok(())
    }
}

impl Unpacker for bool {
    fn unpack(reader: &mut Bytes) -> (r: Result<Self, EncoderError>) {
        if remaining(reader) == 0 {
            return Err(EncoderError::InsufficientData);
        }
        let value = get_u8(reader);
        Ok(value != TAG_ZERO)
    }
}

// ---------------------------------------------------------------------
// u8
// ---------------------------------------------------------------------
impl Shaped for u8 {
    open spec fn shape() -> Shape {
        Shape::U8
    }

    open spec fn datum(&self) -> Datum {
        Datum::Unsigned(*self as u128)
    }

    proof fn lemma_valid() {
    }
}

impl Encoder for u8 {
    open spec fn encodable(&self) -> bool {
        true
    }

    fn encode(&self, writer: &mut BytesMut) -> (r: Result<(), EncoderError>) {
        let v = *self;
        if v <= 127 {
            put_u8(writer, v as u8);
        } else {
            put_u8(writer, TAG_U8);
            put_u8(writer, v - 128);
        }
        proof {
            let w = uint_wire(*self as nat);
            assert(written(*writer) =~= written(*old(writer)) + w);
        }
        Ok(())
    }

    fn is_default(&self) -> (r: bool) {
        *self == 0
    }
}

impl Decoder for u8 {
    fn decode(reader: &mut Bytes) -> (r: Result<Self, EncoderError>) {
        if remaining(reader) == 0 {
            return Err(EncoderError::InsufficientData);
        }
        proof {
            lemma_parse_uint_payload_bounds(unread(*reader)[0], unread(*reader).skip(1), 8);
        }
        let tag = get_u8(reader);
        let ghost rest = unread(*reader);
        let r = decode_u8_from_tag(tag, reader);
        proof {
            match parse_uint_payload(tag, rest, 8) {
                Ok((v, n)) => lemma_skip_twice(unread(*old(reader)), 1, n),
                Err(_) => {},
            }
        }
        r
    }
}

impl Packer for u8 {
    open spec fn packable(&self) -> bool {
        true
    }

    fn pack(&self, writer: &mut BytesMut) -> (r: Result<(), EncoderError>) {
        self.encode(writer)
    }
}

impl Unpacker for u8 {
    fn unpack(reader: &mut Bytes) -> (r: Result<Self, EncoderError>) {
        Self::decode(reader)
    }
}

// ---------------------------------------------------------------------
// u16
// ---------------------------------------------------------------------
impl Shaped for u16 {
    open spec fn shape() -> Shape {
        Shape::U16
    }

    open spec fn datum(&self) -> Datum {
        Datum::Unsigned(*self as u128)
    }

    proof fn lemma_valid() {
    }
}

impl Element for u16 {
    proof fn lemma_not_byte() {
    }
}

impl Encoder for u16 {
    open spec fn encodable(&self) -> bool {
        true
    }

    fn encode(&self, writer: &mut BytesMut) -> (r: Result<(), EncoderError>) {
        let v = *self;
        if v <= 127 {
            put_u8(writer, v as u8);
        } else if v <= 383 {
            put_u8(writer, TAG_U8);
            put_u8(writer, (v - 128) as u8);
        } else {
            put_u8(writer, TAG_U16);
            put_u16_le(writer, v);
        }
        proof {
            let w = uint_wire(*self as nat);
            assert(written(*writer) =~= written(*old(writer)) + w);
        }
        Ok(())
    }

    fn is_default(&self) -> (r: bool) {
        *self == 0
    }
}

impl Decoder for u16 {
    fn decode(reader: &mut Bytes) -> (r: Result<Self, EncoderError>) {
        if remaining(reader) == 0 {
            return Err(EncoderError::InsufficientData);
        }
        proof {
            lemma_parse_uint_payload_bounds(unread(*reader)[0], unread(*reader).skip(1), 16);
        }
        let tag = get_u8(reader);
        let ghost rest = unread(*reader);
        let r = decode_u16_from_tag(tag, reader);
        proof {
            match parse_uint_payload(tag, rest, 16) {
                Ok((v, n)) => lemma_skip_twice(unread(*old(reader)), 1, n),
                Err(_) => {},
            }
        }
        r
    }
}

impl Packer for u16 {
    open spec fn packable(&self) -> bool {
        true
    }

    fn pack(&self, writer: &mut BytesMut) -> (r: Result<(), EncoderError>) {
        self.encode(writer)
    }
}

impl Unpacker for u16 {
    fn unpack(reader: &mut Bytes) -> (r: Result<Self, EncoderError>) {
        Self::decode(reader)
    }
}

// ---------------------------------------------------------------------
// u32
// ---------------------------------------------------------------------
impl Shaped for u32 {
    open spec fn shape() -> Shape {
        Shape::U32
    }

    open spec fn datum(&self) -> Datum {
        Datum::Unsigned(*self as u128)
    }

    proof fn lemma_valid() {
    }
}

impl Element for u32 {
    proof fn lemma_not_byte() {
    }
}

impl Encoder for u32 {
    open spec fn encodable(&self) -> bool {
        true
    }

    fn encode(&self, writer: &mut BytesMut) -> (r: Result<(), EncoderError>) {
        let v = *self;
        if v <= 127 {
            put_u8(writer, v as u8);
        } else if v <= 383 {
            put_u8(writer, TAG_U8);
            put_u8(writer, (v - 128) as u8);
        } else if v <= 65535 {
            put_u8(writer, TAG_U16);
            put_u16_le(writer, v as u16);
        } else {
            put_u8(writer, TAG_U32);
            put_u32_le(writer, v);
        }
        proof {
            let w = uint_wire(*self as nat);
            assert(written(*writer) =~= written(*old(writer)) + w);
        }
        Ok(())
    }

    fn is_default(&self) -> (r: bool) {
        *self == 0
    }
}

impl Decoder for u32 {
    fn decode(reader: &mut Bytes) -> (r: Result<Self, EncoderError>) {
        if remaining(reader) == 0 {
            return Err(EncoderError::InsufficientData);
        }
        proof {
            lemma_parse_uint_payload_bounds(unread(*reader)[0], unread(*reader).skip(1), 32);
        }
        let tag = get_u8(reader);
        let ghost rest = unread(*reader);
        let r = decode_u32_from_tag(tag, reader);
        proof {
            match parse_uint_payload(tag, rest, 32) {
                Ok((v, n)) => lemma_skip_twice(unread(*old(reader)), 1, n),
                Err(_) => {},
            }
        }
        r
    }
}

impl Packer for u32 {
    open spec fn packable(&self) -> bool {
        true
    }

    fn pack(&self, writer: &mut BytesMut) -> (r: Result<(), EncoderError>) {
        self.encode(writer)
    }
}

impl Unpacker for u32 {
    fn unpack(reader: &mut Bytes) -> (r: Result<Self, EncoderError>) {
        Self::decode(reader)
    }
}

// ---------------------------------------------------------------------
// u64
// ---------------------------------------------------------------------
impl Shaped for u64 {
    open spec fn shape() -> Shape {
        Shape::U64
    }

    open spec fn datum(&self) -> Datum {
        Datum::Unsigned(*self as u128)
    }

    proof fn lemma_valid() {
    }
}

impl Element for u64 {
    proof fn lemma_not_byte() {
    }
}

impl Encoder for u64 {
    open spec fn encodable(&self) -> bool {
        true
    }

    fn encode(&self, writer: &mut BytesMut) -> (r: Result<(), EncoderError>) {
        let v = *self;
        if v <= 127 {
            put_u8(writer, v as u8);
        } else if v <= 383 {
            put_u8(writer, TAG_U8);
            put_u8(writer, (v - 128) as u8);
        } else if v <= 65535 {
            put_u8(writer, TAG_U16);
            put_u16_le(writer, v as u16);
        } else if v <= 4294967295 {
            put_u8(writer, TAG_U32);
            put_u32_le(writer, v as u32);
        } else {
            put_u8(writer, TAG_U64);
            put_u64_le(writer, v);
        }
        proof {
            let w = uint_wire(*self as nat);
            assert(written(*writer) =~= written(*old(writer)) + w);
        }
        Ok(())
    }

    fn is_default(&self) -> (r: bool) {
        *self == 0
    }
}

impl Decoder for u64 {
    fn decode(reader: &mut Bytes) -> (r: Result<Self, EncoderError>) {
        if remaining(reader) == 0 {
            return Err(EncoderError::InsufficientData);
        }
        proof {
            lemma_parse_uint_payload_bounds(unread(*reader)[0], unread(*reader).skip(1), 64);
        }
        let tag = get_u8(reader);
        let ghost rest = unread(*reader);
        let r = decode_u64_from_tag(tag, reader);
        proof {
            match parse_uint_payload(tag, rest, 64) {
                Ok((v, n)) => lemma_skip_twice(unread(*old(reader)), 1, n),
                Err(_) => {},
            }
        }
        r
    }
}

impl Packer for u64 {
    open spec fn packable(&self) -> bool {
        true
    }

    fn pack(&self, writer: &mut BytesMut) -> (r: Result<(), EncoderError>) {
        self.encode(writer)
    }
}

impl Unpacker for u64 {
    fn unpack(reader: &mut Bytes) -> (r: Result<Self, EncoderError>) {
        Self::decode(reader)
    }
}

// ---------------------------------------------------------------------
// u128
// ---------------------------------------------------------------------
impl Shaped for u128 {
    open spec fn shape() -> Shape {
        Shape::U128
    }

    open spec fn datum(&self) -> Datum {
        Datum::Unsigned(*self as u128)
    }

    proof fn lemma_valid() {
    }
}

impl Element for u128 {
    proof fn lemma_not_byte() {
    }
}

impl Encoder for u128 {
    open spec fn encodable(&self) -> bool {
        true
    }

    fn encode(&self, writer: &mut BytesMut) -> (r: Result<(), EncoderError>) {
        let v = *self;
        if v <= 127 {
            put_u8(writer, v as u8);
        } else if v <= 383 {
            put_u8(writer, TAG_U8);
            put_u8(writer, (v - 128) as u8);
        } else if v <= 65535 {
            put_u8(writer, TAG_U16);
            put_u16_le(writer, v as u16);
        } else if v <= 4294967295 {
            put_u8(writer, TAG_U32);
            put_u32_le(writer, v as u32);
        } else if v <= 18446744073709551615 {
            put_u8(writer, TAG_U64);
            put_u64_le(writer, v as u64);
        } else {
            put_u8(writer, TAG_U128);
            put_u128_le(writer, v);
        }
        proof {
            let w = uint_wire(*self as nat);
            assert(written(*writer) =~= written(*old(writer)) + w);
        }
        Ok(())
    }

    fn is_default(&self) -> (r: bool) {
        *self == 0
    }
}

impl Decoder for u128 {
    fn decode(reader: &mut Bytes) -> (r: Result<Self, EncoderError>) {
        if remaining(reader) == 0 {
            return Err(EncoderError::InsufficientData);
        }
        proof {
            lemma_parse_uint_payload_bounds(unread(*reader)[0], unread(*reader).skip(1), 128);
        }
        let tag = get_u8(reader);
        let ghost rest = unread(*reader);
        let r = decode_u128_from_tag(tag, reader);
        proof {
            match parse_uint_payload(tag, rest, 128) {
                Ok((v, n)) => lemma_skip_twice(unread(*old(reader)), 1, n),
                Err(_) => {},
            }
        }
        r
    }
}

impl Packer for u128 {
    open spec fn packable(&self) -> bool {
        true
    }

    fn pack(&self, writer: &mut BytesMut) -> (r: Result<(), EncoderError>) {
        self.encode(writer)
    }
}

impl Unpacker for u128 {
    fn unpack(reader: &mut Bytes) -> (r: Result<Self, EncoderError>) {
        Self::decode(reader)
    }
}

// ---------------------------------------------------------------------
// usize
// ---------------------------------------------------------------------
impl Shaped for usize {
    open spec fn shape() -> Shape {
        Shape::Usize
    }

    open spec fn datum(&self) -> Datum {
        Datum::Unsigned(*self as u128)
    }

    proof fn lemma_valid() {
    }
}

impl Element for usize {
    proof fn lemma_not_byte() {
    }
}

impl Encoder for usize {
    open spec fn encodable(&self) -> bool {
        true
    }

    fn encode(&self, writer: &mut BytesMut) -> (r: Result<(), EncoderError>) {
        let v = *self as u64;
        v.encode(writer)
    }

    fn is_default(&self) -> (r: bool) {
        *self == 0
    }
}

impl Decoder for usize {
    fn decode(reader: &mut Bytes) -> (r: Result<Self, EncoderError>) {
        if remaining(reader) == 0 {
            return Err(EncoderError::InsufficientData);
        }
        proof {
            lemma_parse_uint_payload_bounds(unread(*reader)[0], unread(*reader).skip(1), 32);
            lemma_parse_uint_payload_bounds(unread(*reader)[0], unread(*reader).skip(1), 64);
        }
        let tag = get_u8(reader);
        let ghost rest = unread(*reader);
        proof {
            match parse_uint_payload(tag, rest, word_bits()) {
                Ok((v, n)) => lemma_skip_twice(unread(*old(reader)), 1, n),
                Err(_) => {},
            }
        }
        if usize::MAX as u64 > 0xFFFF_FFFF {
            match decode_u64_from_tag(tag, reader) {
                Ok(v) => Ok(v as usize),
                Err(e) => Err(e),
            }
        } else {
            match decode_u32_from_tag(tag, reader) {
                Ok(v) => Ok(v as usize),
                Err(e) => Err(e),
            }
        }
    }
}

impl Packer for usize {
    open spec fn packable(&self) -> bool {
        true
    }

    fn pack(&self, writer: &mut BytesMut) -> (r: Result<(), EncoderError>) {
        self.encode(writer)
    }
}

impl Unpacker for usize {
    fn unpack(reader: &mut Bytes) -> (r: Result<Self, EncoderError>) {
        Self::decode(reader)
    }
}

// ---------------------------------------------------------------------
// i8
// ---------------------------------------------------------------------
impl Shaped for i8 {
    open spec fn shape() -> Shape {
        Shape::I8
    }

    open spec fn datum(&self) -> Datum {
        Datum::Signed(*self as i128)
    }

    proof fn lemma_valid() {
    }
}

impl Element for i8 {
    proof fn lemma_not_byte() {
    }
}

impl Encoder for i8 {
    open spec fn encodable(&self) -> bool {
        true
    }

    fn encode(&self, writer: &mut BytesMut) -> (r: Result<(), EncoderError>) {
        let v = *self;
        if v >= 0 {
            (v as u8).encode(writer)
        } else {
            put_u8(writer, TAG_NEGATIVE);
            let inv = (-(v + 1)) as u8;
            let r = inv.encode(writer);
            proof {
                assert(written(*writer) =~= written(*old(writer)) + (seq![TAG_NEGATIVE] + uint_wire(
                    inv as nat,
                )));
            }
            r
        }
    }

    fn is_default(&self) -> (r: bool) {
        *self == 0
    }
}

impl Decoder for i8 {
    fn decode(reader: &mut Bytes) -> (r: Result<Self, EncoderError>) {
        if remaining(reader) == 0 {
            return Err(EncoderError::InsufficientData);
        }
        proof {
            lemma_parse_uint_payload_bounds(unread(*reader)[0], unread(*reader).skip(1), 8);
        }
        let tag = get_u8(reader);
        let ghost rest = unread(*reader);
        if tag == TAG_NEGATIVE {
            proof {
                if rest.len() > 0 {
                    lemma_parse_uint_payload_bounds(rest[0], rest.skip(1), 8);
                }
                match parse_uint(rest, 8) {
                    Ok((v, n)) => lemma_skip_twice(unread(*old(reader)), 1, n),
                    Err(_) => {},
                }
            }
            match u8::decode(reader) {
                Ok(inv) => {
                    if inv <= i8::MAX as u8 {
                        Ok(-(inv as i8) - 1)
                    } else {
                        Ok((u8::MAX - inv) as i8)
                    }
                },
                Err(e) => Err(e),
            }
        } else {
            proof {
                match parse_uint_payload(tag, rest, 8) {
                    Ok((v, n)) => lemma_skip_twice(unread(*old(reader)), 1, n),
                    Err(_) => {},
                }
            }
            match decode_u8_from_tag(tag, reader) {
                Ok(v) => {
                    if v > i8::MAX as u8 {
                        Err(
                            EncoderError::Decode(
                                around_number("Value ", v as u128, " too large for i8"),
                            ),
                        )
                    } else {
                        Ok(v as i8)
                    }
                },
                Err(e) => Err(e),
            }
        }
    }
}

impl Packer for i8 {
    open spec fn packable(&self) -> bool {
        true
    }

    fn pack(&self, writer: &mut BytesMut) -> (r: Result<(), EncoderError>) {
        self.encode(writer)
    }
}

impl Unpacker for i8 {
    fn unpack(reader: &mut Bytes) -> (r: Result<Self, EncoderError>) {
        Self::decode(reader)
    }
}

// ---------------------------------------------------------------------
// i16
// ---------------------------------------------------------------------
impl Shaped for i16 {
    open spec fn shape() -> Shape {
        Shape::I16
    }

    open spec fn datum(&self) -> Datum {
        Datum::Signed(*self as i128)
    }

    proof fn lemma_valid() {
    }
}

impl Element for i16 {
    proof fn lemma_not_byte() {
    }
}

impl Encoder for i16 {
    open spec fn encodable(&self) -> bool {
        true
    }

    fn encode(&self, writer: &mut BytesMut) -> (r: Result<(), EncoderError>) {
        let v = *self;
        if v >= 0 {
            (v as u16).encode(writer)
        } else {
            put_u8(writer, TAG_NEGATIVE);
            let inv = (-(v + 1)) as u16;
            let r = inv.encode(writer);
            proof {
                assert(written(*writer) =~= written(*old(writer)) + (seq![TAG_NEGATIVE] + uint_wire(
                    inv as nat,
                )));
            }
            r
        }
    }

    fn is_default(&self) -> (r: bool) {
        *self == 0
    }
}

impl Decoder for i16 {
    fn decode(reader: &mut Bytes) -> (r: Result<Self, EncoderError>) {
        if remaining(reader) == 0 {
            return Err(EncoderError::InsufficientData);
        }
        proof {
            lemma_parse_uint_payload_bounds(unread(*reader)[0], unread(*reader).skip(1), 16);
        }
        let tag = get_u8(reader);
        let ghost rest = unread(*reader);
        if tag == TAG_NEGATIVE {
            proof {
                if rest.len() > 0 {
                    lemma_parse_uint_payload_bounds(rest[0], rest.skip(1), 16);
                }
                match parse_uint(rest, 16) {
                    Ok((v, n)) => lemma_skip_twice(unread(*old(reader)), 1, n),
                    Err(_) => {},
                }
            }
            match u16::decode(reader) {
                Ok(inv) => {
                    if inv <= i16::MAX as u16 {
                        Ok(-(inv as i16) - 1)
                    } else {
                        Ok((u16::MAX - inv) as i16)
                    }
                },
                Err(e) => Err(e),
            }
        } else {
            proof {
                match parse_uint_payload(tag, rest, 16) {
                    Ok((v, n)) => lemma_skip_twice(unread(*old(reader)), 1, n),
                    Err(_) => {},
                }
            }
            match decode_u16_from_tag(tag, reader) {
                Ok(v) => {
                    if v > i16::MAX as u16 {
                        Err(
                            EncoderError::Decode(
                                around_number("Value ", v as u128, " too large for i16"),
                            ),
                        )
                    } else {
                        Ok(v as i16)
                    }
                },
                Err(e) => Err(e),
            }
        }
    }
}

impl Packer for i16 {
    open spec fn packable(&self) -> bool {
        true
    }

    fn pack(&self, writer: &mut BytesMut) -> (r: Result<(), EncoderError>) {
        self.encode(writer)
    }
}

impl Unpacker for i16 {
    fn unpack(reader: &mut Bytes) -> (r: Result<Self, EncoderError>) {
        Self::decode(reader)
    }
}

// ---------------------------------------------------------------------
// i32
// ---------------------------------------------------------------------
impl Shaped for i32 {
    open spec fn shape() -> Shape {
        Shape::I32
    }

    open spec fn datum(&self) -> Datum {
        Datum::Signed(*self as i128)
    }

    proof fn lemma_valid() {
    }
}

impl Element for i32 {
    proof fn lemma_not_byte() {
    }
}

impl Encoder for i32 {
    open spec fn encodable(&self) -> bool {
        true
    }

    fn encode(&self, writer: &mut BytesMut) -> (r: Result<(), EncoderError>) {
        let v = *self;
        if v >= 0 {
            (v as u32).encode(writer)
        } else {
            put_u8(writer, TAG_NEGATIVE);
            let inv = (-(v + 1)) as u32;
            let r = inv.encode(writer);
            proof {
                assert(written(*writer) =~= written(*old(writer)) + (seq![TAG_NEGATIVE] + uint_wire(
                    inv as nat,
                )));
            }
            r
        }
    }

    fn is_default(&self) -> (r: bool) {
        *self == 0
    }
}

impl Decoder for i32 {
    fn decode(reader: &mut Bytes) -> (r: Result<Self, EncoderError>) {
        if remaining(reader) == 0 {
            return Err(EncoderError::InsufficientData);
        }
        proof {
            lemma_parse_uint_payload_bounds(unread(*reader)[0], unread(*reader).skip(1), 32);
        }
        let tag = get_u8(reader);
        let ghost rest = unread(*reader);
        if tag == TAG_NEGATIVE {
            proof {
                if rest.len() > 0 {
                    lemma_parse_uint_payload_bounds(rest[0], rest.skip(1), 32);
                }
                match parse_uint(rest, 32) {
                    Ok((v, n)) => lemma_skip_twice(unread(*old(reader)), 1, n),
                    Err(_) => {},
                }
            }
            match u32::decode(reader) {
                Ok(inv) => {
                    if inv <= i32::MAX as u32 {
                        Ok(-(inv as i32) - 1)
                    } else {
                        Ok((u32::MAX - inv) as i32)
                    }
                },
                Err(e) => Err(e),
            }
        } else {
            proof {
                match parse_uint_payload(tag, rest, 32) {
                    Ok((v, n)) => lemma_skip_twice(unread(*old(reader)), 1, n),
                    Err(_) => {},
                }
            }
            match decode_u32_from_tag(tag, reader) {
                Ok(v) => {
                    if v > i32::MAX as u32 {
                        Err(
                            EncoderError::Decode(
                                around_number("Value ", v as u128, " too large for i32"),
                            ),
                        )
                    } else {
                        Ok(v as i32)
                    }
                },
                Err(e) => Err(e),
            }
        }
    }
}

impl Packer for i32 {
    open spec fn packable(&self) -> bool {
        true
    }

    fn pack(&self, writer: &mut BytesMut) -> (r: Result<(), EncoderError>) {
        self.encode(writer)
    }
}

impl Unpacker for i32 {
    fn unpack(reader: &mut Bytes) -> (r: Result<Self, EncoderError>) {
        Self::decode(reader)
    }
}

// ---------------------------------------------------------------------
// i64
// ---------------------------------------------------------------------
impl Shaped for i64 {
    open spec fn shape() -> Shape {
        Shape::I64
    }

    open spec fn datum(&self) -> Datum {
        Datum::Signed(*self as i128)
    }

    proof fn lemma_valid() {
    }
}

impl Element for i64 {
    proof fn lemma_not_byte() {
    }
}

impl Encoder for i64 {
    open spec fn encodable(&self) -> bool {
        true
    }

    fn encode(&self, writer: &mut BytesMut) -> (r: Result<(), EncoderError>) {
        let v = *self;
        if v >= 0 {
            (v as u64).encode(writer)
        } else {
            put_u8(writer, TAG_NEGATIVE);
            let inv = (-(v + 1)) as u64;
            let r = inv.encode(writer);
            proof {
                assert(written(*writer) =~= written(*old(writer)) + (seq![TAG_NEGATIVE] + uint_wire(
                    inv as nat,
                )));
            }
            r
        }
    }

    fn is_default(&self) -> (r: bool) {
        *self == 0
    }
}

impl Decoder for i64 {
    fn decode(reader: &mut Bytes) -> (r: Result<Self, EncoderError>) {
        if remaining(reader) == 0 {
            return Err(EncoderError::InsufficientData);
        }
        proof {
            lemma_parse_uint_payload_bounds(unread(*reader)[0], unread(*reader).skip(1), 64);
        }
        let tag = get_u8(reader);
        let ghost rest = unread(*reader);
        if tag == TAG_NEGATIVE {
            proof {
                if rest.len() > 0 {
                    lemma_parse_uint_payload_bounds(rest[0], rest.skip(1), 64);
                }
                match parse_uint(rest, 64) {
                    Ok((v, n)) => lemma_skip_twice(unread(*old(reader)), 1, n),
                    Err(_) => {},
                }
            }
            match u64::decode(reader) {
                Ok(inv) => {
                    if inv <= i64::MAX as u64 {
                        Ok(-(inv as i64) - 1)
                    } else {
                        Ok((u64::MAX - inv) as i64)
                    }
                },
                Err(e) => Err(e),
            }
        } else {
            proof {
                match parse_uint_payload(tag, rest, 64) {
                    Ok((v, n)) => lemma_skip_twice(unread(*old(reader)), 1, n),
                    Err(_) => {},
                }
            }
            match decode_u64_from_tag(tag, reader) {
                Ok(v) => {
                    if v > i64::MAX as u64 {
                        Err(
                            EncoderError::Decode(
                                around_number("Value ", v as u128, " too large for i64"),
                            ),
                        )
                    } else {
                        Ok(v as i64)
                    }
                },
                Err(e) => Err(e),
            }
        }
    }
}

impl Packer for i64 {
    open spec fn packable(&self) -> bool {
        true
    }

    fn pack(&self, writer: &mut BytesMut) -> (r: Result<(), EncoderError>) {
        self.encode(writer)
    }
}

impl Unpacker for i64 {
    fn unpack(reader: &mut Bytes) -> (r: Result<Self, EncoderError>) {
        Self::decode(reader)
    }
}

// ---------------------------------------------------------------------
// i128
// ---------------------------------------------------------------------
impl Shaped for i128 {
    open spec fn shape() -> Shape {
        Shape::I128
    }

    open spec fn datum(&self) -> Datum {
        Datum::Signed(*self as i128)
    }

    proof fn lemma_valid() {
    }
}

impl Element for i128 {
    proof fn lemma_not_byte() {
    }
}

impl Encoder for i128 {
    open spec fn encodable(&self) -> bool {
        true
    }

    fn encode(&self, writer: &mut BytesMut) -> (r: Result<(), EncoderError>) {
        let v = *self;
        if v >= 0 {
            (v as u128).encode(writer)
        } else {
            put_u8(writer, TAG_NEGATIVE);
            let inv = (-(v + 1)) as u128;
            let r = inv.encode(writer);
            proof {
                assert(written(*writer) =~= written(*old(writer)) + (seq![TAG_NEGATIVE] + uint_wire(
                    inv as nat,
                )));
            }
            r
        }
    }

    fn is_default(&self) -> (r: bool) {
        *self == 0
    }
}

impl Decoder for i128 {
    fn decode(reader: &mut Bytes) -> (r: Result<Self, EncoderError>) {
        if remaining(reader) == 0 {
            return Err(EncoderError::InsufficientData);
        }
        proof {
            lemma_parse_uint_payload_bounds(unread(*reader)[0], unread(*reader).skip(1), 128);
        }
        let tag = get_u8(reader);
        let ghost rest = unread(*reader);
        if tag == TAG_NEGATIVE {
            proof {
                if rest.len() > 0 {
                    lemma_parse_uint_payload_bounds(rest[0], rest.skip(1), 128);
                }
                match parse_uint(rest, 128) {
                    Ok((v, n)) => lemma_skip_twice(unread(*old(reader)), 1, n),
                    Err(_) => {},
                }
            }
            match u128::decode(reader) {
                Ok(inv) => {
                    if inv <= i128::MAX as u128 {
                        Ok(-(inv as i128) - 1)
                    } else {
                        Ok((u128::MAX - inv) as i128)
                    }
                },
                Err(e) => Err(e),
            }
        } else {
            proof {
                match parse_uint_payload(tag, rest, 128) {
                    Ok((v, n)) => lemma_skip_twice(unread(*old(reader)), 1, n),
                    Err(_) => {},
                }
            }
            match decode_u128_from_tag(tag, reader) {
                Ok(v) => {
                    if v > i128::MAX as u128 {
                        Err(
                            EncoderError::Decode(
                                around_number("Value ", v as u128, " too large for i128"),
                            ),
                        )
                    } else {
                        Ok(v as i128)
                    }
                },
                Err(e) => Err(e),
            }
        }
    }
}

impl Packer for i128 {
    open spec fn packable(&self) -> bool {
        true
    }

    fn pack(&self, writer: &mut BytesMut) -> (r: Result<(), EncoderError>) {
        self.encode(writer)
    }
}

impl Unpacker for i128 {
    fn unpack(reader: &mut Bytes) -> (r: Result<Self, EncoderError>) {
        Self::decode(reader)
    }
}

// ---------------------------------------------------------------------
// isize
// ---------------------------------------------------------------------
impl Shaped for isize {
    open spec fn shape() -> Shape {
        Shape::Isize
    }

    open spec fn datum(&self) -> Datum {
        Datum::Signed(*self as i128)
    }

    proof fn lemma_valid() {
    }
}

impl Element for isize {
    proof fn lemma_not_byte() {
    }
}

impl Encoder for isize {
    open spec fn encodable(&self) -> bool {
        true
    }

    fn encode(&self, writer: &mut BytesMut) -> (r: Result<(), EncoderError>) {
        let v = *self as i64;
        v.encode(writer)
    }

    fn is_default(&self) -> (r: bool) {
        *self == 0
    }
}

impl Decoder for isize {
    fn decode(reader: &mut Bytes) -> (r: Result<Self, EncoderError>) {
        if usize::MAX as u64 > 0xFFFF_FFFF {
            match i64::decode(reader) {
                Ok(v) => Ok(v as isize),
                Err(e) => Err(e),
            }
        } else {
            match i32::decode(reader) {
                Ok(v) => Ok(v as isize),
                Err(e) => Err(e),
            }
        }
    }
}

impl Packer for isize {
    open spec fn packable(&self) -> bool {
        true
    }

    fn pack(&self, writer: &mut BytesMut) -> (r: Result<(), EncoderError>) {
        self.encode(writer)
    }
}

impl Unpacker for isize {
    fn unpack(reader: &mut Bytes) -> (r: Result<Self, EncoderError>) {
        Self::decode(reader)
    }
}

// ---------------------------------------------------------------------
// char
// ---------------------------------------------------------------------
/// `char::from_u32`: the character with this code point, which there is if
/// and only if the number is a code point and no surrogate.
#[verifier::external_body]
pub(crate) fn char_from_code(code: u32) -> (r: Option<char>)
    ensures
        r is Some <==> is_scalar(code as nat),
        r matches Some(c) ==> c == code as char,
{
    char::from_u32(code)
}

impl Shaped for char {
    open spec fn shape() -> Shape {
        Shape::Char
    }

    open spec fn datum(&self) -> Datum {
        Datum::Char(*self)
    }

    proof fn lemma_valid() {
    }
}

impl Element for char {
    proof fn lemma_not_byte() {
    }
}

impl Encoder for char {
    open spec fn encodable(&self) -> bool {
        true
    }

    fn encode(&self, writer: &mut BytesMut) -> (r: Result<(), EncoderError>) {
        let code = *self as u32;
        code.encode(writer)
    }

    fn is_default(&self) -> (r: bool) {
        *self == '\0'
    }
}

impl Decoder for char {
    fn decode(reader: &mut Bytes) -> (r: Result<Self, EncoderError>) {
        proof {
            lemma_parse_uint_bounds(unread(*reader), 32);
        }
        let code = match u32::decode(reader) {
            Ok(code) => code,
            Err(e) => {
                return Err(e);
            },
        };
        match char_from_code(code) {
            Some(c) => Ok(c),
            None => Err(EncoderError::Decode(with_number("Invalid character code: ", code as u128))),
        }
    }
}

impl Packer for char {
    open spec fn packable(&self) -> bool {
        true
    }

    fn pack(&self, writer: &mut BytesMut) -> (r: Result<(), EncoderError>) {
        self.encode(writer)
    }
}

impl Unpacker for char {
    fn unpack(reader: &mut Bytes) -> (r: Result<Self, EncoderError>) {
        Self::decode(reader)
    }
}

// ---------------------------------------------------------------------
// String
// ---------------------------------------------------------------------
/// `String::from_utf8`: the text that the bytes spell, or, where they are
/// not valid UTF-8, the error's message.
#[verifier::external_body]
pub(crate) fn text_from_utf8(bytes: Vec<u8>) -> (r: Result<String, String>)
    ensures
        r is Ok <==> valid_utf8(bytes@),
        r matches Ok(text) ==> text@ == decode_utf8(bytes@),
{
    String::from_utf8(bytes).map_err(|e| e.to_string())
}

/// Reads the length of a text whose tag has been consumed.
pub(crate) fn decode_text_length(tag: u8, reader: &mut Bytes) -> (r: Result<usize, EncoderError>)
    ensures
        match parse_text_len_payload(tag, unread(*old(reader))) {
            Ok((len, n)) => r matches Ok(x) && x == len && n <= unread(*old(reader)).len()
                && unread(*final(reader)) == unread(*old(reader)).skip(n as int),
            Err(f) => r matches Err(e) && e@ == f,
        },
{
    if TAG_STRING_BASE <= tag && tag < TAG_STRING_LONG {
        proof {
            assert(unread(*reader).skip(0) =~= unread(*reader));
        }
        Ok((tag - TAG_STRING_BASE) as usize)
    } else if tag == TAG_STRING_LONG {
        proof {
            lemma_parse_uint_bounds(unread(*reader), word_bits());
        }
        usize::decode(reader)
    } else {
        Err(
            EncoderError::Decode(
                with_number("Expected String tag (139..=180), got ", tag as u128),
            ),
        )
    }
}

impl Shaped for String {
    open spec fn shape() -> Shape {
        Shape::Text
    }

    open spec fn datum(&self) -> Datum {
        Datum::Text(self@)
    }

    proof fn lemma_valid() {
    }
}

impl Element for String {
    proof fn lemma_not_byte() {
    }
}

impl Encoder for String {
    open spec fn encodable(&self) -> bool {
        true
    }

    fn encode(&self, writer: &mut BytesMut) -> (r: Result<(), EncoderError>) {
        let bytes = self.as_str().as_bytes();
        let len = bytes.len();
        if len <= 40 {
            put_u8(writer, TAG_STRING_BASE + len as u8);
            put_slice(writer, bytes);
        } else {
            put_u8(writer, TAG_STRING_LONG);
            let _ = len.encode(writer);
            put_slice(writer, bytes);
        }
        proof {
            assert(written(*writer) =~= written(*old(writer)) + text_wire(self@));
        }
        Ok(())
    }

    fn is_default(&self) -> (r: bool) {
        self.as_str().is_empty()
    }
}

impl Decoder for String {
    fn decode(reader: &mut Bytes) -> (r: Result<Self, EncoderError>) {
        if remaining(reader) == 0 {
            return Err(EncoderError::InsufficientData);
        }
        let tag = get_u8(reader);
        let ghost rest = unread(*reader);
        let len = match decode_text_length(tag, reader) {
            Ok(len) => len,
            Err(e) => {
                return Err(e);
            },
        };
        proof {
            match parse_text_len_payload(tag, rest) {
                Ok((l, n)) => lemma_skip_twice(unread(*old(reader)), 1, n),
                Err(_) => {},
            }
        }
        if remaining(reader) < len {
            return Err(EncoderError::InsufficientData);
        }
        let ghost body = unread(*reader);
        let bytes = copy_to_vec(reader, len);
        proof {
            match parse_text_len_payload(tag, rest) {
                Ok((l, n)) => lemma_skip_twice(unread(*old(reader)), 1 + n, len as nat),
                Err(_) => {},
            }
        }
        match text_from_utf8(bytes) {
            Ok(text) => Ok(text),
            Err(message) => Err(EncoderError::Decode(message)),
        }
    }
}

impl Packer for String {
    open spec fn packable(&self) -> bool {
        true
    }

    fn pack(&self, writer: &mut BytesMut) -> (r: Result<(), EncoderError>) {
        self.encode(writer)
    }
}

impl Unpacker for String {
    fn unpack(reader: &mut Bytes) -> (r: Result<Self, EncoderError>) {
        Self::decode(reader)
    }
}

// ---------------------------------------------------------------------
// Option
// ---------------------------------------------------------------------
impl<T: Shaped> Shaped for Option<T> {
    open spec fn shape() -> Shape {
        Shape::Optional(Box::new(T::shape()))
    }

    open spec fn datum(&self) -> Datum {
        match self {
            Some(value) => Datum::Maybe(Some(Box::new(value.datum()))),
            None => Datum::Maybe(None),
        }
    }

    proof fn lemma_valid() {
        T::lemma_valid();
    }
}

impl<T: Shaped> Element for Option<T> {
    proof fn lemma_not_byte() {
    }
}

impl<T: Encoder> Encoder for Option<T> {
    open spec fn encodable(&self) -> bool {
        match self {
            Some(value) => value.encodable(),
            None => true,
        }
    }

    fn encode(&self, writer: &mut BytesMut) -> (r: Result<(), EncoderError>) {
        match self {
            Some(value) => {
                put_u8(writer, TAG_SOME);
                let r = value.encode(writer);
                proof {
                    let inner = wire(Mode::Tagged, T::shape(), value.datum());
                    assert((written(*old(writer)) + seq![TAG_SOME]) + inner =~= written(
                        *old(writer),
                    ) + (seq![TAG_SOME] + inner));
                }
                r
            },
            None => {
                put_u8(writer, TAG_NONE);
                Ok(())
            },
        }
    }

    fn is_default(&self) -> (r: bool) {
        self.is_none()
    }
}

impl<T: Decoder> Decoder for Option<T> {
    fn decode(reader: &mut Bytes) -> (r: Result<Self, EncoderError>) {
        if remaining(reader) == 0 {
            return Err(EncoderError::InsufficientData);
        }
        let tag = get_u8(reader);
        if tag == TAG_NONE {
            Ok(None)
        } else if tag == TAG_SOME {
            if remaining(reader) == 0 {
                return Err(EncoderError::InsufficientData);
            }
            let ghost rest = unread(*reader);
            match T::decode(reader) {
                Ok(value) => {
                    proof {
                        match parse(Mode::Tagged, T::shape(), rest) {
                            Ok((d, n)) => {
                                lemma_skip_twice(unread(*old(reader)), 1, n);
                            },
                            Err(_) => {},
                        }
                    }
                    Ok(Some(value))
                },
                Err(e) => Err(e),
            }
        } else {
            Err(
                EncoderError::Decode(
                    with_number("Expected Option tag (128 or 129), got ", tag as u128),
                ),
            )
        }
    }
}

impl<T: Packer> Packer for Option<T> {
    open spec fn packable(&self) -> bool {
        match self {
            Some(value) => value.packable(),
            None => true,
        }
    }

    fn pack(&self, writer: &mut BytesMut) -> (r: Result<(), EncoderError>) {
        match self {
            Some(value) => {
                put_u8(writer, TAG_SOME);
                let r = value.pack(writer);
                proof {
                    let inner = wire(Mode::Packed, T::shape(), value.datum());
                    assert((written(*old(writer)) + seq![TAG_SOME]) + inner =~= written(
                        *old(writer),
                    ) + (seq![TAG_SOME] + inner));
                }
                r
            },
            None => {
                put_u8(writer, TAG_NONE);
                Ok(())
            },
        }
    }
}

impl<T: Unpacker> Unpacker for Option<T> {
    fn unpack(reader: &mut Bytes) -> (r: Result<Self, EncoderError>) {
        if remaining(reader) == 0 {
            return Err(EncoderError::InsufficientData);
        }
        let tag = get_u8(reader);
        if tag == TAG_NONE {
            Ok(None)
        } else if tag == TAG_SOME {
            let ghost rest = unread(*reader);
            match T::unpack(reader) {
                Ok(value) => {
                    proof {
                        match parse(Mode::Packed, T::shape(), rest) {
                            Ok((d, n)) => {
                                lemma_skip_twice(unread(*old(reader)), 1, n);
                            },
                            Err(_) => {},
                        }
                    }
                    Ok(Some(value))
                },
                Err(e) => Err(e),
            }
        } else {
            Err(
                EncoderError::Decode(
                    with_number("Expected Option tag (128 or 129), got ", tag as u128),
                ),
            )
        }
    }
}

// ---------------------------------------------------------------------
// Box, Arc and references: written as what they hold
// ---------------------------------------------------------------------
impl<T: Shaped> Shaped for Box<T> {
    open spec fn shape() -> Shape {
        T::shape()
    }

    open spec fn datum(&self) -> Datum {
        (**self).datum()
    }

    proof fn lemma_valid() {
        T::lemma_valid();
    }
}

impl<T: Element> Element for Box<T> {
    proof fn lemma_not_byte() {
        T::lemma_not_byte();
    }
}

impl<T: Encoder> Encoder for Box<T> {
    open spec fn encodable(&self) -> bool {
        (**self).encodable()
    }

    fn encode(&self, writer: &mut BytesMut) -> (r: Result<(), EncoderError>) {
        (**self).encode(writer)
    }

    fn is_default(&self) -> (r: bool) {
        (**self).is_default()
    }
}

impl<T: Decoder> Decoder for Box<T> {
    fn decode(reader: &mut Bytes) -> (r: Result<Self, EncoderError>) {
        match T::decode(reader) {
            Ok(value) => Ok(Box::new(value)),
            Err(e) => Err(e),
        }
    }
}

impl<T: Packer> Packer for Box<T> {
    open spec fn packable(&self) -> bool {
        (**self).packable()
    }

    fn pack(&self, writer: &mut BytesMut) -> (r: Result<(), EncoderError>) {
        (**self).pack(writer)
    }
}

impl<T: Unpacker> Unpacker for Box<T> {
    fn unpack(reader: &mut Bytes) -> (r: Result<Self, EncoderError>) {
        match T::unpack(reader) {
            Ok(value) => Ok(Box::new(value)),
            Err(e) => Err(e),
        }
    }
}

impl<T: Shaped> Shaped for Arc<T> {
    open spec fn shape() -> Shape {
        T::shape()
    }

    open spec fn datum(&self) -> Datum {
        (**self).datum()
    }

    proof fn lemma_valid() {
        T::lemma_valid();
    }
}

impl<T: Element> Element for Arc<T> {
    proof fn lemma_not_byte() {
        T::lemma_not_byte();
    }
}

impl<T: Encoder> Encoder for Arc<T> {
    open spec fn encodable(&self) -> bool {
        (**self).encodable()
    }

    fn encode(&self, writer: &mut BytesMut) -> (r: Result<(), EncoderError>) {
        (**self).encode(writer)
    }

    fn is_default(&self) -> (r: bool) {
        (**self).is_default()
    }
}

impl<T: Decoder> Decoder for Arc<T> {
    fn decode(reader: &mut Bytes) -> (r: Result<Self, EncoderError>) {
        match T::decode(reader) {
            Ok(value) => Ok(Arc::new(value)),
            Err(e) => Err(e),
        }
    }
}

impl<T: Packer> Packer for Arc<T> {
    open spec fn packable(&self) -> bool {
        (**self).packable()
    }

    fn pack(&self, writer: &mut BytesMut) -> (r: Result<(), EncoderError>) {
        (**self).pack(writer)
    }
}

impl<T: Unpacker> Unpacker for Arc<T> {
    fn unpack(reader: &mut Bytes) -> (r: Result<Self, EncoderError>) {
        match T::unpack(reader) {
            Ok(value) => Ok(Arc::new(value)),
            Err(e) => Err(e),
        }
    }
}

impl<T: Shaped> Shaped for &T {
    open spec fn shape() -> Shape {
        T::shape()
    }

    open spec fn datum(&self) -> Datum {
        (**self).datum()
    }

    proof fn lemma_valid() {
        T::lemma_valid();
    }
}

impl<T: Encoder> Encoder for &T {
    open spec fn encodable(&self) -> bool {
        (**self).encodable()
    }

    fn encode(&self, writer: &mut BytesMut) -> (r: Result<(), EncoderError>) {
        (**self).encode(writer)
    }

    fn is_default(&self) -> (r: bool) {
        (**self).is_default()
    }
}

impl<T: Packer> Packer for &T {
    open spec fn packable(&self) -> bool {
        (**self).packable()
    }

    fn pack(&self, writer: &mut BytesMut) -> (r: Result<(), EncoderError>) {
        (**self).pack(writer)
    }
}

// ---------------------------------------------------------------------
// Vec
// ---------------------------------------------------------------------
/// Writes the length prefix of a sequence.
pub fn encode_vec_length(len: usize, writer: &mut BytesMut) -> (r: Result<(), EncoderError>)
    ensures
        r is Ok,
        written(*final(writer)) == written(*old(writer)) + seq_len_wire(len as nat),
{
    if len <= 5 {
        put_u8(writer, TAG_ARRAY_VEC_SET_BASE + len as u8);
    } else {
        put_u8(writer, TAG_ARRAY_VEC_SET_LONG);
        let _ = len.encode(writer);
        proof {
            assert(written(*writer) =~= written(*old(writer)) + seq_len_wire(len as nat));
        }
    }
    Ok(())
}

/// Reads the length of a sequence whose tag has been consumed.
pub fn decode_vec_length(tag: u8, reader: &mut Bytes) -> (r: Result<usize, EncoderError>)
    ensures
        match parse_seq_len_payload(tag, unread(*old(reader))) {
            Ok((len, n)) => r matches Ok(x) && x == len && n <= unread(*old(reader)).len()
                && unread(*final(reader)) == unread(*old(reader)).skip(n as int),
            Err(f) => r matches Err(e) && e@ == f,
        },
{
    if TAG_ARRAY_VEC_SET_BASE <= tag && tag < TAG_ARRAY_VEC_SET_LONG {
        proof {
            assert(unread(*reader).skip(0) =~= unread(*reader));
        }
        Ok((tag - TAG_ARRAY_VEC_SET_BASE) as usize)
    } else if tag == TAG_ARRAY_VEC_SET_LONG {
        proof {
            lemma_parse_uint_bounds(unread(*reader), word_bits());
        }
        usize::decode(reader)
    } else {
        Err(EncoderError::Decode(with_number("Expected Vec tag (188..=194), got ", tag as u128)))
    }
}

/// Writes bytes in the binary form: the tag, the length, the bytes.
pub fn encode_vec_u8(bytes: &[u8], writer: &mut BytesMut) -> (r: Result<(), EncoderError>)
    ensures
        r is Ok,
        written(*final(writer)) == written(*old(writer)) + blob_wire(bytes@),
{
    put_u8(writer, TAG_BINARY);
    let len = bytes.len();
    let _ = len.encode(writer);
    put_slice(writer, bytes);
    proof {
        assert(written(*writer) =~= written(*old(writer)) + blob_wire(bytes@));
    }
    Ok(())
}

/// Reads the length and the bytes of the binary form, whose tag has been
/// consumed.
pub fn decode_vec_u8(reader: &mut Bytes) -> (r: Result<Vec<u8>, EncoderError>)
    ensures
        match parse_uint(unread(*old(reader)), word_bits()) {
            Ok((len, n)) => if unread(*old(reader)).len() - n < len {
                r matches Err(e) && e@ == Fault::InsufficientData
            } else {
                r matches Ok(bytes) && bytes@ == unread(*old(reader)).subrange(
                    n as int,
                    (n + len) as int,
                ) && unread(*final(reader)) == unread(*old(reader)).skip((n + len) as int)
            },
            Err(f) => r matches Err(e) && e@ == f,
        },
{
    proof {
        lemma_parse_uint_bounds(unread(*reader), word_bits());
    }
    let len = match usize::decode(reader) {
        Ok(len) => len,
        Err(e) => {
            return Err(e);
        },
    };
    if remaining(reader) < len {
        return Err(EncoderError::InsufficientData);
    }
    let ghost body = unread(*reader);
    let bytes = copy_to_vec(reader, len);
    proof {
        let s = unread(*old(reader));
        let n = (s.len() - body.len()) as nat;
        lemma_skip_twice(s, n, len as nat);
        assert(body.take(len as int) =~= s.subrange(n as int, (n + len) as int));
    }
    Ok(bytes)
}

impl Shaped for Vec<u8> {
    open spec fn shape() -> Shape {
        Shape::Vector(Box::new(Shape::U8))
    }

    open spec fn datum(&self) -> Datum {
        Datum::Blob(self@)
    }

    proof fn lemma_valid() {
        assert(valid(Mode::Tagged, Shape::U8));
        assert(valid(Mode::Packed, Shape::U8));
    }
}

impl Element for Vec<u8> {
    proof fn lemma_not_byte() {
    }
}

impl Encoder for Vec<u8> {
    open spec fn encodable(&self) -> bool {
        true
    }

    fn encode(&self, writer: &mut BytesMut) -> (r: Result<(), EncoderError>) {
        let len = self.len();
        encode_vec_u8(self.as_slice(), writer)
    }

    fn is_default(&self) -> (r: bool) {
        self.len() == 0
    }
}

impl Decoder for Vec<u8> {
    fn decode(reader: &mut Bytes) -> (r: Result<Self, EncoderError>) {
        if remaining(reader) == 0 {
            return Err(EncoderError::InsufficientData);
        }
        let tag = get_u8(reader);
        if tag == TAG_BINARY {
            let ghost rest = unread(*reader);
            let r = decode_vec_u8(reader);
            proof {
                lemma_parse_uint_bounds(rest, word_bits());
                match parse_uint(rest, word_bits()) {
                    Ok((len, n)) => {
                        let s = unread(*old(reader));
                        if rest.len() - n >= len {
                            lemma_skip_twice(s, 1, n);
                            lemma_skip_twice(s, 1, n + len);
                            assert(tail(s, n + 1).take(len as int) =~= rest.subrange(
                                n as int,
                                (n + len) as int,
                            ));
                        }
                    },
                    Err(_) => {},
                }
            }
            r
        } else {
            Err(EncoderError::Decode(with_number("Expected Vec<u8> tag (181), got ", tag as u128)))
        }
    }
}

impl Packer for Vec<u8> {
    open spec fn packable(&self) -> bool {
        true
    }

    fn pack(&self, writer: &mut BytesMut) -> (r: Result<(), EncoderError>) {
        self.encode(writer)
    }
}

impl Unpacker for Vec<u8> {
    fn unpack(reader: &mut Bytes) -> (r: Result<Self, EncoderError>) {
        Self::decode(reader)
    }
}

/// The data of the elements of a vector.
pub open spec fn item_data<T: Shaped>(items: Seq<T>) -> Seq<Datum> {
    Seq::new(items.len(), |i: int| items[i].datum())
}

/// Values that each are of a shape are, in a row, values of it from any
/// index on.
proof fn lemma_conform_all(mode: Mode, shape: Shape, items: Seq<Datum>, from: nat)
    requires
        forall|i: int| from <= i < items.len() ==> conforms(mode, shape, #[trigger] items[i]),
    ensures
        conform_all(mode, shape, items, from),
    decreases items.len() - from,
{
    if from < items.len() {
        lemma_conform_all(mode, shape, items, from + 1);
    }
}

/// Encodes the elements one after another.
fn encode_items<T: Encoder>(items: &[T], writer: &mut BytesMut) -> (r: Result<(), EncoderError>)
    ensures
        r is Ok <==> forall|i: int| 0 <= i < items@.len() ==> (#[trigger] items@[i]).encodable(),
        r is Ok ==> written(*final(writer)) == written(*old(writer)) + wire_all(
            Mode::Tagged,
            T::shape(),
            item_data(items@),
            0,
        ),
        r is Ok ==> conform_all(Mode::Tagged, T::shape(), item_data(items@), 0),
        r is Ok ==> forall|i: int|
            0 <= i < items@.len() ==> faithful(
                Mode::Tagged,
                T::shape(),
                #[trigger] item_data(items@)[i],
            ),
{
    let ghost data = item_data(items@);
    let ghost goal = written(*writer) + wire_all(Mode::Tagged, T::shape(), data, 0);
    let mut i: usize = 0;
    while i < items.len()
        invariant
            i <= items.len(),
            data == item_data(items@),
            written(*writer) + wire_all(Mode::Tagged, T::shape(), data, i as nat) == goal,
            forall|j: int| 0 <= j < i ==> (#[trigger] items@[j]).encodable(),
            forall|j: int| 0 <= j < i ==> sound(Mode::Tagged, T::shape(), #[trigger] data[j]),
        decreases items.len() - i,
    {
        let ghost before = written(*writer);
        match items[i].encode(writer) {
            Ok(()) => {},
            Err(e) => {
                return Err(e);
            },
        }
        proof {
            let item = wire(Mode::Tagged, T::shape(), data[i as int]);
            let rest = wire_all(Mode::Tagged, T::shape(), data, (i + 1) as nat);
            assert((before + item) + rest =~= before + (item + rest));
        }
        i += 1;
    }
    proof {
        assert(written(*writer) + Seq::<u8>::empty() =~= written(*writer));
        lemma_conform_all(Mode::Tagged, T::shape(), data, 0);
    }
    Ok(())
}

/// Packs the elements one after another.
fn pack_items<T: Packer>(items: &[T], writer: &mut BytesMut) -> (r: Result<(), EncoderError>)
    ensures
        r is Ok <==> forall|i: int| 0 <= i < items@.len() ==> (#[trigger] items@[i]).packable(),
        r is Ok ==> written(*final(writer)) == written(*old(writer)) + wire_all(
            Mode::Packed,
            T::shape(),
            item_data(items@),
            0,
        ),
        r is Ok ==> conform_all(Mode::Packed, T::shape(), item_data(items@), 0),
        r is Ok ==> forall|i: int|
            0 <= i < items@.len() ==> faithful(
                Mode::Packed,
                T::shape(),
                #[trigger] item_data(items@)[i],
            ),
{
    let ghost data = item_data(items@);
    let ghost goal = written(*writer) + wire_all(Mode::Packed, T::shape(), data, 0);
    let mut i: usize = 0;
    while i < items.len()
        invariant
            i <= items.len(),
            data == item_data(items@),
            written(*writer) + wire_all(Mode::Packed, T::shape(), data, i as nat) == goal,
            forall|j: int| 0 <= j < i ==> (#[trigger] items@[j]).packable(),
            forall|j: int| 0 <= j < i ==> sound(Mode::Packed, T::shape(), #[trigger] data[j]),
        decreases items.len() - i,
    {
        let ghost before = written(*writer);
        match items[i].pack(writer) {
            Ok(()) => {},
            Err(e) => {
                return Err(e);
            },
        }
        proof {
            let item = wire(Mode::Packed, T::shape(), data[i as int]);
            let rest = wire_all(Mode::Packed, T::shape(), data, (i + 1) as nat);
            assert((before + item) + rest =~= before + (item + rest));
        }
        i += 1;
    }
    proof {
        assert(written(*writer) + Seq::<u8>::empty() =~= written(*writer));
        lemma_conform_all(Mode::Packed, T::shape(), data, 0);
    }
    Ok(())
}

/// What reading `count` values in a row must have done.
pub open spec fn read_items<T: Shaped>(
    expected: Result<(Seq<Datum>, nat), Fault>,
    before: Seq<u8>,
    after: Seq<u8>,
    r: Result<Vec<T>, EncoderError>,
) -> bool {
    match expected {
        Ok((items, n)) => r matches Ok(out) && item_data(out@) == items && n <= before.len()
            && after == before.skip(n as int),
        Err(f) => r matches Err(e) && e@ == f,
    }
}

/// Decodes `count` values in a row.
#[verifier::loop_isolation(false)]
fn decode_items<T: Decoder>(reader: &mut Bytes, count: usize) -> (r: Result<Vec<T>, EncoderError>)
    ensures
        read_items(
            parse_repeat(Mode::Tagged, T::shape(), unread(*old(reader)), count as nat),
            unread(*old(reader)),
            unread(*final(reader)),
            r,
        ),
        r matches Ok(out) ==> out@.len() == count,
{
    let ghost start = unread(*reader);
    let ghost whole = parse_repeat(Mode::Tagged, T::shape(), start, count as nat);
    proof {
        match whole {
            Ok((items, n)) => {
                assert(Seq::<Datum>::empty() + items =~= items);
            },
            Err(_) => {},
        }
    }
    let mut out: Vec<T> = Vec::new();
    let mut i: usize = 0;
    let ghost mut used: nat = 0;
    while i < count
        invariant
            i <= count,
            out@.len() == i,
            used <= start.len(),
            unread(*reader) == start.skip(used as int),
            whole == prepend(
                item_data(out@),
                used,
                parse_repeat(Mode::Tagged, T::shape(), unread(*reader), (count - i) as nat),
            ),
        decreases count - i,
    {
        let ghost cur = unread(*reader);
        let ghost front = item_data(out@);
        match T::decode(reader) {
            Ok(value) => {
                out.push(value);
            },
            Err(e) => {
                return Err(e);
            },
        }
        proof {
            match parse(Mode::Tagged, T::shape(), cur) {
                Ok((d, n)) => {
                    lemma_skip_twice(start, used, n);
                    assert(item_data(out@) =~= front.push(d));
                    match parse_repeat(
                        Mode::Tagged,
                        T::shape(),
                        tail(cur, n),
                        (count - i - 1) as nat,
                    ) {
                        Ok((more, m)) => {
                            assert(front + (seq![d] + more) =~= front.push(d) + more);
                        },
                        Err(_) => {},
                    }
                    used = used + n;
                },
                Err(_) => {},
            }
        }
        i += 1;
    }
    proof {
        assert(item_data(out@) + Seq::<Datum>::empty() =~= item_data(out@));
    }
    Ok(out)
}

/// Unpacks `count` values in a row.
#[verifier::loop_isolation(false)]
fn unpack_items<T: Unpacker>(reader: &mut Bytes, count: usize) -> (r: Result<Vec<T>, EncoderError>)
    ensures
        read_items(
            parse_repeat(Mode::Packed, T::shape(), unread(*old(reader)), count as nat),
            unread(*old(reader)),
            unread(*final(reader)),
            r,
        ),
        r matches Ok(out) ==> out@.len() == count,
{
    let ghost start = unread(*reader);
    let ghost whole = parse_repeat(Mode::Packed, T::shape(), start, count as nat);
    proof {
        match whole {
            Ok((items, n)) => {
                assert(Seq::<Datum>::empty() + items =~= items);
            },
            Err(_) => {},
        }
    }
    let mut out: Vec<T> = Vec::new();
    let mut i: usize = 0;
    let ghost mut used: nat = 0;
    while i < count
        invariant
            i <= count,
            out@.len() == i,
            used <= start.len(),
            unread(*reader) == start.skip(used as int),
            whole == prepend(
                item_data(out@),
                used,
                parse_repeat(Mode::Packed, T::shape(), unread(*reader), (count - i) as nat),
            ),
        decreases count - i,
    {
        let ghost cur = unread(*reader);
        let ghost front = item_data(out@);
        match T::unpack(reader) {
            Ok(value) => {
                out.push(value);
            },
            Err(e) => {
                return Err(e);
            },
        }
        proof {
            match parse(Mode::Packed, T::shape(), cur) {
                Ok((d, n)) => {
                    lemma_skip_twice(start, used, n);
                    assert(item_data(out@) =~= front.push(d));
                    match parse_repeat(
                        Mode::Packed,
                        T::shape(),
                        tail(cur, n),
                        (count - i - 1) as nat,
                    ) {
                        Ok((more, m)) => {
                            assert(front + (seq![d] + more) =~= front.push(d) + more);
                        },
                        Err(_) => {},
                    }
                    used = used + n;
                },
                Err(_) => {},
            }
        }
        i += 1;
    }
    proof {
        assert(item_data(out@) + Seq::<Datum>::empty() =~= item_data(out@));
    }
    Ok(out)
}

/// Whether every element is the default of its type.
fn all_default_items<T: Encoder>(items: &[T]) -> (r: bool)
    ensures
        r == all_zero(T::shape(), item_data(items@), 0),
{
    let ghost data = item_data(items@);
    let mut i: usize = 0;
    while i < items.len()
        invariant
            i <= items.len(),
            data == item_data(items@),
            all_zero(T::shape(), data, 0) == all_zero(T::shape(), data, i as nat),
        decreases items.len() - i,
    {
        if !items[i].is_default() {
            return false;
        }
        i += 1;
    }
    true
}

impl<T: Element> Shaped for Vec<T> {
    open spec fn shape() -> Shape {
        Shape::Vector(Box::new(T::shape()))
    }

    open spec fn datum(&self) -> Datum {
        Datum::List(item_data(self@))
    }

    proof fn lemma_valid() {
        T::lemma_valid();
    }
}

impl<T: Element> Element for Vec<T> {
    proof fn lemma_not_byte() {
    }
}

impl<T: Encoder + Element> Encoder for Vec<T> {
    open spec fn encodable(&self) -> bool {
        forall|i: int| 0 <= i < self@.len() ==> (#[trigger] self@[i]).encodable()
    }

    fn encode(&self, writer: &mut BytesMut) -> (r: Result<(), EncoderError>) {
        let ghost before = written(*writer);
        let _ = encode_vec_length(self.len(), writer);
        let r = encode_items(self.as_slice(), writer);
        proof {
            T::lemma_not_byte();
            let head = seq_len_wire(self@.len());
            let body = wire_all(Mode::Tagged, T::shape(), item_data(self@), 0);
            assert((before + head) + body =~= before + (head + body));
        }
        r
    }

    fn is_default(&self) -> (r: bool) {
        self.len() == 0
    }
}

impl<T: Decoder + Element> Decoder for Vec<T> {
    fn decode(reader: &mut Bytes) -> (r: Result<Self, EncoderError>) {
        proof {
            T::lemma_not_byte();
        }
        if remaining(reader) == 0 {
            return Err(EncoderError::InsufficientData);
        }
        let tag = get_u8(reader);
        let len = match decode_vec_length(tag, reader) {
            Ok(len) => len,
            Err(e) => {
                return Err(e);
            },
        };
        let ghost start = unread(*reader);
        let ghost lead = (unread(*old(reader)).len() - start.len()) as nat;
        proof {
            lemma_skip_twice(unread(*old(reader)), 1, (lead - 1) as nat);
        }
        let items = match decode_items::<T>(reader, len) {
            Ok(items) => items,
            Err(e) => {
                return Err(e);
            },
        };
        proof {
            let used = (start.len() - unread(*reader).len()) as nat;
            lemma_skip_twice(unread(*old(reader)), lead, used);
        }
        Ok(items)
    }
}

impl<T: Packer + Element> Packer for Vec<T> {
    open spec fn packable(&self) -> bool {
        forall|i: int| 0 <= i < self@.len() ==> (#[trigger] self@[i]).packable()
    }

    fn pack(&self, writer: &mut BytesMut) -> (r: Result<(), EncoderError>) {
        let ghost before = written(*writer);
        let _ = encode_vec_length(self.len(), writer);
        let r = pack_items(self.as_slice(), writer);
        proof {
            T::lemma_not_byte();
            let head = seq_len_wire(self@.len());
            let body = wire_all(Mode::Packed, T::shape(), item_data(self@), 0);
            assert((before + head) + body =~= before + (head + body));
        }
        r
    }
}

impl<T: Unpacker + Element> Unpacker for Vec<T> {
    fn unpack(reader: &mut Bytes) -> (r: Result<Self, EncoderError>) {
        proof {
            T::lemma_not_byte();
        }
        if remaining(reader) == 0 {
            return Err(EncoderError::InsufficientData);
        }
        let tag = get_u8(reader);
        let len = match decode_vec_length(tag, reader) {
            Ok(len) => len,
            Err(e) => {
                return Err(e);
            },
        };
        let ghost start = unread(*reader);
        let ghost lead = (unread(*old(reader)).len() - start.len()) as nat;
        proof {
            lemma_skip_twice(unread(*old(reader)), 1, (lead - 1) as nat);
        }
        let items = match unpack_items::<T>(reader, len) {
            Ok(items) => items,
            Err(e) => {
                return Err(e);
            },
        };
        proof {
            let used = (start.len() - unread(*reader).len()) as nat;
            lemma_skip_twice(unread(*old(reader)), lead, used);
        }
        Ok(items)
    }
}

// ---------------------------------------------------------------------
// Arrays
// ---------------------------------------------------------------------
/// `TryFrom<Vec<T>>` for `[T; N]`: the elements of the vector as an array,
/// which there is if and only if the vector holds exactly `N` of them.
#[verifier::external_body]
pub(crate) fn array_from_vec<T, const N: usize>(items: Vec<T>) -> (r: Result<[T; N], Vec<T>>)
    ensures
        r is Ok <==> items@.len() == N,
        r matches Ok(array) ==> array@ == items@,
{
    items.try_into()
}

/// The message for an array that was written with another number of
/// elements: both numbers in decimal.
pub open spec fn length_mismatch_text(expected: nat, found: nat) -> Seq<char> {
    "Array length mismatch: expected "@ + decimal(expected) + ", got "@ + decimal(found)
}

/// The message for an array that was written with another number of
/// elements.
fn length_mismatch(expected: usize, found: usize) -> (text: String)
    ensures
        text@ == length_mismatch_text(expected as nat, found as nat),
{
    let mut text = with_number("Array length mismatch: expected ", expected as u128);
    text.append(", got ");
    text.append(number_text(found as u128).as_str());
    text
}

impl<T: Shaped, const N: usize> Shaped for [T; N] {
    open spec fn shape() -> Shape {
        Shape::Array(Box::new(T::shape()), N)
    }

    open spec fn datum(&self) -> Datum {
        Datum::List(item_data(self@))
    }

    proof fn lemma_valid() {
        T::lemma_valid();
    }
}

impl<T: Shaped, const N: usize> Element for [T; N] {
    proof fn lemma_not_byte() {
    }
}

impl<T: Encoder, const N: usize> Encoder for [T; N] {
    open spec fn encodable(&self) -> bool {
        forall|i: int| 0 <= i < self@.len() ==> (#[trigger] self@[i]).encodable()
    }

    fn encode(&self, writer: &mut BytesMut) -> (r: Result<(), EncoderError>) {
        let ghost before = written(*writer);
        let _ = encode_vec_length(N, writer);
        let r = encode_items(self.as_slice(), writer);
        proof {
            let head = seq_len_wire(N as nat);
            let body = wire_all(Mode::Tagged, T::shape(), item_data(self@), 0);
            assert((before + head) + body =~= before + (head + body));
        }
        r
    }

    fn is_default(&self) -> (r: bool) {
        all_default_items(self.as_slice())
    }
}

impl<T: Decoder, const N: usize> Decoder for [T; N] {
    fn decode(reader: &mut Bytes) -> (r: Result<Self, EncoderError>) {
        if remaining(reader) == 0 {
            return Err(EncoderError::InsufficientData);
        }
        let tag = get_u8(reader);
        let len = match decode_vec_length(tag, reader) {
            Ok(len) => len,
            Err(e) => {
                return Err(e);
            },
        };
        if len != N {
            return Err(EncoderError::Decode(length_mismatch(N, len)));
        }
        let ghost lead = (unread(*old(reader)).len() - unread(*reader).len()) as nat;
        proof {
            lemma_skip_twice(unread(*old(reader)), 1, (lead - 1) as nat);
        }
        let ghost start = unread(*reader);
        let items = match decode_items::<T>(reader, N) {
            Ok(items) => items,
            Err(e) => {
                return Err(e);
            },
        };
        proof {
            let used = (start.len() - unread(*reader).len()) as nat;
            lemma_skip_twice(unread(*old(reader)), lead, used);
        }
        match array_from_vec::<T, N>(items) {
            Ok(array) => Ok(array),
            Err(_) => Err(EncoderError::Decode(String::from_str("Failed to convert Vec to array"))),
        }
    }
}

impl<T: Packer, const N: usize> Packer for [T; N] {
    open spec fn packable(&self) -> bool {
        forall|i: int| 0 <= i < self@.len() ==> (#[trigger] self@[i]).packable()
    }

    fn pack(&self, writer: &mut BytesMut) -> (r: Result<(), EncoderError>) {
        let ghost before = written(*writer);
        let _ = encode_vec_length(N, writer);
        let r = pack_items(self.as_slice(), writer);
        proof {
            let head = seq_len_wire(N as nat);
            let body = wire_all(Mode::Packed, T::shape(), item_data(self@), 0);
            assert((before + head) + body =~= before + (head + body));
        }
        r
    }
}

impl<T: Unpacker, const N: usize> Unpacker for [T; N] {
    fn unpack(reader: &mut Bytes) -> (r: Result<Self, EncoderError>) {
        if remaining(reader) == 0 {
            return Err(EncoderError::InsufficientData);
        }
        let tag = get_u8(reader);
        let len = match decode_vec_length(tag, reader) {
            Ok(len) => len,
            Err(e) => {
                return Err(e);
            },
        };
        if len != N {
            return Err(EncoderError::Decode(length_mismatch(N, len)));
        }
        let ghost lead = (unread(*old(reader)).len() - unread(*reader).len()) as nat;
        proof {
            lemma_skip_twice(unread(*old(reader)), 1, (lead - 1) as nat);
        }
        let ghost start = unread(*reader);
        let items = match unpack_items::<T>(reader, N) {
            Ok(items) => items,
            Err(e) => {
                return Err(e);
            },
        };
        proof {
            let used = (start.len() - unread(*reader).len()) as nat;
            lemma_skip_twice(unread(*old(reader)), lead, used);
        }
        match array_from_vec::<T, N>(items) {
            Ok(array) => Ok(array),
            Err(_) => Err(EncoderError::Decode(String::from_str("Failed to convert Vec to array"))),
        }
    }
}

// ---------------------------------------------------------------------
// Floats, held as bit patterns
// ---------------------------------------------------------------------
/// What a 32-bit float slot holds: a 32-bit float, or a 64-bit float that
/// was on the wire in its place and is left for the caller to narrow.
#[derive(Debug, Clone, Copy, PartialEq, Eq)]
pub enum Float32 {
    /// The bit pattern of a 32-bit float.
    Single(u32),
    /// The bit pattern of a 64-bit float.
    Double(u64),
}

/// A 64-bit float as its bit pattern.
#[derive(Debug, Clone, Copy, PartialEq, Eq)]
pub struct Float64 {
    pub bits: u64,
}

impl Shaped for Float32 {
    open spec fn shape() -> Shape {
        Shape::F32
    }

    open spec fn datum(&self) -> Datum {
        match self {
            Float32::Single(bits) => Datum::F32(*bits),
            Float32::Double(bits) => Datum::F64(*bits),
        }
    }

    proof fn lemma_valid() {
    }
}

impl Element for Float32 {
    proof fn lemma_not_byte() {
    }
}

impl Encoder for Float32 {
    open spec fn encodable(&self) -> bool {
        true
    }

    fn encode(&self, writer: &mut BytesMut) -> (r: Result<(), EncoderError>) {
        match self {
            Float32::Single(bits) => {
                put_u8(writer, TAG_F32);
                put_u32_le(writer, *bits);
            },
            Float32::Double(bits) => {
                put_u8(writer, TAG_F64);
                put_u64_le(writer, *bits);
            },
        }
        proof {
            assert(written(*writer) =~= written(*old(writer)) + wire(
                Mode::Tagged,
                Self::shape(),
                self.datum(),
            ));
        }
        Ok(())
    }

    fn is_default(&self) -> (r: bool) {
        match self {
            Float32::Single(bits) => *bits == 0 || *bits == 0x8000_0000,
            Float32::Double(bits) => *bits == 0 || *bits == 0x8000_0000_0000_0000,
        }
    }
}

impl Decoder for Float32 {
    fn decode(reader: &mut Bytes) -> (r: Result<Self, EncoderError>) {
        if remaining(reader) == 0 {
            return Err(EncoderError::InsufficientData);
        }
        let tag = get_u8(reader);
        let ghost s = unread(*old(reader));
        if tag == TAG_F32 {
            if remaining(reader) < 4 {
                return Err(EncoderError::InsufficientData);
            }
            let bits = get_u32_le(reader);
            proof {
                assert(s.skip(1).take(4) =~= s.subrange(1, 5));
                lemma_skip_twice(s, 1, 4);
            }
            Ok(Float32::Single(bits))
        } else if tag == TAG_F64 {
            if remaining(reader) < 8 {
                return Err(EncoderError::InsufficientData);
            }
            let bits = get_u64_le(reader);
            proof {
                assert(s.skip(1).take(8) =~= s.subrange(1, 9));
                lemma_skip_twice(s, 1, 8);
            }
            Ok(Float32::Double(bits))
        } else {
            Err(
                EncoderError::Decode(
                    with_number("Expected f32/f64 tag (137 or 138), got ", tag as u128),
                ),
            )
        }
    }
}

impl Packer for Float32 {
    open spec fn packable(&self) -> bool {
        self is Single
    }

    fn pack(&self, writer: &mut BytesMut) -> (r: Result<(), EncoderError>) {
        match self {
            Float32::Single(bits) => {
                put_u32_le(writer, *bits);
                Ok(())
            },
            Float32::Double(_) => Err(
                EncoderError::Encode(
                    String::from_str("a 64-bit float cannot be packed as a 32-bit float"),
                ),
            ),
        }
    }
}

impl Unpacker for Float32 {
    fn unpack(reader: &mut Bytes) -> (r: Result<Self, EncoderError>) {
        if remaining(reader) < 4 {
            return Err(EncoderError::InsufficientData);
        }
        let bits = get_u32_le(reader);
        Ok(Float32::Single(bits))
    }
}

impl Shaped for Float64 {
    open spec fn shape() -> Shape {
        Shape::F64
    }

    open spec fn datum(&self) -> Datum {
        Datum::F64(self.bits)
    }

    proof fn lemma_valid() {
    }
}

impl Element for Float64 {
    proof fn lemma_not_byte() {
    }
}

impl Encoder for Float64 {
    open spec fn encodable(&self) -> bool {
        true
    }

    fn encode(&self, writer: &mut BytesMut) -> (r: Result<(), EncoderError>) {
        put_u8(writer, TAG_F64);
        put_u64_le(writer, self.bits);
        proof {
            assert(written(*writer) =~= written(*old(writer)) + wire(
                Mode::Tagged,
                Self::shape(),
                self.datum(),
            ));
        }
        Ok(())
    }

    fn is_default(&self) -> (r: bool) {
        self.bits == 0 || self.bits == 0x8000_0000_0000_0000
    }
}

impl Decoder for Float64 {
    fn decode(reader: &mut Bytes) -> (r: Result<Self, EncoderError>) {
        if remaining(reader) == 0 {
            return Err(EncoderError::InsufficientData);
        }
        let tag = get_u8(reader);
        let ghost s = unread(*old(reader));
        if tag == TAG_F64 {
            if remaining(reader) < 8 {
                return Err(EncoderError::InsufficientData);
            }
            let bits = get_u64_le(reader);
            proof {
                assert(s.skip(1).take(8) =~= s.subrange(1, 9));
                lemma_skip_twice(s, 1, 8);
            }
            Ok(Float64 { bits })
        } else {
            Err(
                EncoderError::Decode(
                    around_number(
                        "Expected f64 tag (138), got ",
                        tag as u128,
                        ". f32 to f64 cross-decoding is not supported due to precision concerns.",
                    ),
                ),
            )
        }
    }
}

impl Packer for Float64 {
    open spec fn packable(&self) -> bool {
        true
    }

    fn pack(&self, writer: &mut BytesMut) -> (r: Result<(), EncoderError>) {
        put_u64_le(writer, self.bits);
        Ok(())
    }
}

impl Unpacker for Float64 {
    fn unpack(reader: &mut Bytes) -> (r: Result<Self, EncoderError>) {
        if remaining(reader) < 8 {
            return Err(EncoderError::InsufficientData);
        }
        let bits = get_u64_le(reader);
        Ok(Float64 { bits })
    }
}

// ---------------------------------------------------------------------
// Bytes
// ---------------------------------------------------------------------
impl Shaped for Bytes {
    open spec fn shape() -> Shape {
        Shape::Blob
    }

    open spec fn datum(&self) -> Datum {
        Datum::Blob(unread(*self))
    }

    proof fn lemma_valid() {
    }
}

impl Element for Bytes {
    proof fn lemma_not_byte() {
    }
}

impl Encoder for Bytes {
    open spec fn encodable(&self) -> bool {
        true
    }

    fn encode(&self, writer: &mut BytesMut) -> (r: Result<(), EncoderError>) {
        put_u8(writer, TAG_BINARY);
        let len = bytes_len(self);
        let _ = len.encode(writer);
        put_bytes(writer, self);
        proof {
            assert(written(*writer) =~= written(*old(writer)) + blob_wire(unread(*self)));
        }
        Ok(())
    }

    fn is_default(&self) -> (r: bool) {
        bytes_len(self) == 0
    }
}

impl Decoder for Bytes {
    fn decode(reader: &mut Bytes) -> (r: Result<Self, EncoderError>) {
        if remaining(reader) == 0 {
            return Err(EncoderError::InsufficientData);
        }
        let tag = get_u8(reader);
        let ghost s = unread(*old(reader));
        let ghost rest = unread(*reader);
        proof {
            lemma_parse_uint_bounds(rest, word_bits());
        }
        let len = if tag == TAG_BINARY {
            match usize::decode(reader) {
                Ok(len) => len,
                Err(e) => {
                    return Err(e);
                },
            }
        } else if TAG_STRING_BASE <= tag && tag <= TAG_STRING_LONG {
            match decode_text_length(tag, reader) {
                Ok(len) => len,
                Err(e) => {
                    return Err(e);
                },
            }
        } else {
            return Err(
                EncoderError::Decode(
                    with_number("Expected Bytes tag (181 or 139..=180), got ", tag as u128),
                ),
            );
        };
        let ghost lead = (s.len() - unread(*reader).len()) as nat;
        proof {
            lemma_skip_twice(s, 1, (lead - 1) as nat);
        }
        if remaining(reader) < len {
            return Err(EncoderError::InsufficientData);
        }
        let out = split_to(reader, len);
        proof {
            lemma_skip_twice(s, lead, len as nat);
        }
        Ok(out)
    }
}

impl Packer for Bytes {
    open spec fn packable(&self) -> bool {
        true
    }

    fn pack(&self, writer: &mut BytesMut) -> (r: Result<(), EncoderError>) {
        self.encode(writer)
    }
}

impl Unpacker for Bytes {
    fn unpack(reader: &mut Bytes) -> (r: Result<Self, EncoderError>) {
        Self::decode(reader)
    }
}

} // verus!
