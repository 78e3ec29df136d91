//! The tag table: the first byte of every encoded value.
//!
//! Tags are part of the wire format and never change.

use vstd::prelude::*;

verus! {

/// Zero for numbers, `false` for booleans.
pub const TAG_ZERO: u8 = 0;

/// One for numbers, `true` for booleans.
pub const TAG_ONE: u8 = 1;

/// The largest unsigned value that is its own tag.
pub const TAG_U8_127: u8 = 127;

/// An absent optional value.
pub const TAG_NONE: u8 = 128;

/// A present optional value; the value follows.
pub const TAG_SOME: u8 = 129;

/// One payload byte holding the value minus 128.
pub const TAG_U8: u8 = 131;

/// Two little-endian payload bytes.
pub const TAG_U16: u8 = 132;

/// Four little-endian payload bytes.
pub const TAG_U32: u8 = 133;

/// Eight little-endian payload bytes.
pub const TAG_U64: u8 = 134;

/// Sixteen little-endian payload bytes.
pub const TAG_U128: u8 = 135;

/// A negative integer; its bit-inverted magnitude follows as an unsigned value.
pub const TAG_NEGATIVE: u8 = 136;

/// A 32-bit float: four little-endian bytes follow.
pub const TAG_F32: u8 = 137;

/// A 64-bit float: eight little-endian bytes follow.
pub const TAG_F64: u8 = 138;

/// Short string of length `tag - TAG_STRING_BASE`.
pub const TAG_STRING_BASE: u8 = 139;

/// Long string: an encoded length and the bytes follow.
pub const TAG_STRING_LONG: u8 = 180;

/// Raw bytes: an encoded length and the bytes follow.
pub const TAG_BINARY: u8 = 181;

/// Unit struct.
pub const TAG_STRUCT_UNIT: u8 = 182;

/// Struct with named fields.
pub const TAG_STRUCT_NAMED: u8 = 183;

/// Struct with positional fields.
pub const TAG_STRUCT_UNNAMED: u8 = 184;

/// Enum variant without fields.
pub const TAG_ENUM: u8 = 185;

/// Enum variant with named fields.
pub const TAG_ENUM_NAMED: u8 = 186;

/// Enum variant with positional fields.
pub const TAG_ENUM_UNNAMED: u8 = 187;

/// Short sequence of length `tag - TAG_ARRAY_VEC_SET_BASE`.
pub const TAG_ARRAY_VEC_SET_BASE: u8 = 188;

/// Long sequence: an encoded length and the elements follow.
pub const TAG_ARRAY_VEC_SET_LONG: u8 = 194;

/// Tuple: an encoded arity and the elements follow.
pub const TAG_TUPLE: u8 = 195;

/// Map: an encoded length and the key/value pairs follow.
pub const TAG_MAP: u8 = 196;

/// Date and time: seconds and nanoseconds since the epoch.
pub const TAG_CHRONO_DATETIME: u8 = 197;

/// Calendar date: days since the epoch.
pub const TAG_CHRONO_NAIVE_DATE: u8 = 198;

/// Time of day: seconds since midnight and nanoseconds.
pub const TAG_CHRONO_NAIVE_TIME: u8 = 199;

/// Decimal number: mantissa and scale.
pub const TAG_DECIMAL: u8 = 200;

/// A 128-bit identifier: sixteen little-endian bytes follow.
pub const TAG_UUID: u8 = 201;

/// JSON `null`.
pub const TAG_JSON_NULL: u8 = 202;

/// JSON boolean; a boolean tag follows.
pub const TAG_JSON_BOOL: u8 = 203;

/// JSON number; a kind marker and the number follow.
pub const TAG_JSON_NUMBER: u8 = 204;

/// JSON string; an encoded string follows.
pub const TAG_JSON_STRING: u8 = 205;

/// JSON array; an encoded length and the elements follow.
pub const TAG_JSON_ARRAY: u8 = 206;

/// JSON object; an encoded length and the key/value pairs follow.
pub const TAG_JSON_OBJECT: u8 = 207;

} // verus!
