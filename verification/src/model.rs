//! The data model: shapes, values, and what a value is logically.
//!
//! A [`Shape`] describes a type: a primitive, a container, or a struct or
//! enum declaration with its field identifiers and policies. A [`Value`] is
//! a value of some shape. Its view, a [`Datum`], is the same value over
//! mathematical sequences; contracts speak of data.

use vstd::prelude::*;
use crate::json::{JsonDatum, JsonValue};

verus! {

/// The two framing protocols.
#[derive(Debug, Clone, Copy, PartialEq, Eq, Structural)]
pub enum Mode {
    /// Structs and enums carry field identifiers; unknown fields are skipped
    /// on decode.
    Tagged,
    /// Fields are positional; a structure hash guards the layout.
    Packed,
}

/// The policy of one field or variant.
#[derive(Debug, Clone)]
pub struct FieldAttributes {
    /// The identifier on the wire. Never 0 in a valid declaration.
    pub id: u64,
    /// A missing field decodes to the zero value of its type.
    pub default: bool,
    /// The field is never written.
    pub skip_encode: bool,
    /// The field is never read: what the wire holds for it is discarded and
    /// it decodes to the zero value of its type.
    pub skip_decode: bool,
    /// The field is not written when it holds the zero value, and a missing
    /// field decodes to it.
    pub skip_default: bool,
    /// The name that the identifier was derived from, if not the declared one.
    pub rename: Option<String>,
}

/// One declared field.
#[derive(Debug)]
pub struct FieldDef {
    /// The declared name; for a positional field, its index in decimal.
    pub name: String,
    /// The declared type as text, which the structure hash covers.
    pub type_text: String,
    /// Identifier and policy.
    pub attrs: FieldAttributes,
    /// The type of the field.
    pub shape: Shape,
}

/// The fields of a struct or of an enum variant.
#[derive(Debug)]
pub enum Fields {
    /// No fields.
    Unit,
    /// Named fields, in declaration order.
    Named(Vec<FieldDef>),
    /// Positional fields, in declaration order. Their attributes are not used.
    Unnamed(Vec<FieldDef>),
}

/// A struct declaration.
#[derive(Debug)]
pub struct StructDef {
    pub name: String,
    pub fields: Fields,
    /// The declaration opts out of tagged mode.
    pub disable_encode: bool,
    /// The declaration opts out of packed mode.
    pub disable_pack: bool,
}

/// One variant of an enum declaration.
#[derive(Debug)]
pub struct VariantDef {
    pub name: String,
    /// The identifier on the wire. Never 0 in a valid declaration.
    pub id: u64,
    /// Whether the declaration marks this variant as the enum's default.
    pub is_default: bool,
    pub fields: Fields,
}

/// An enum declaration.
#[derive(Debug)]
pub struct EnumDef {
    pub name: String,
    pub variants: Vec<VariantDef>,
    /// The declaration opts out of tagged mode.
    pub disable_encode: bool,
    /// The declaration opts out of packed mode.
    pub disable_pack: bool,
}

/// A type whose values can be encoded.
#[derive(Debug)]
pub enum Shape {
    Bool,
    U8,
    U16,
    U32,
    U64,
    U128,
    /// Pointer-width unsigned integer, decoded like `U32` or `U64`.
    Usize,
    I8,
    I16,
    I32,
    I64,
    I128,
    /// Pointer-width signed integer, decoded like `I32` or `I64`.
    Isize,
    /// 32-bit float, held as its bit pattern. Decoding also accepts a 64-bit
    /// float and then yields that one's bit pattern.
    F32,
    /// 64-bit float, held as its bit pattern.
    F64,
    /// A character, written as the number of its code point.
    Char,
    /// UTF-8 text.
    Text,
    /// Raw bytes. Decoding also accepts text and yields its bytes.
    Blob,
    /// An optional value.
    Optional(Box<Shape>),
    /// A sequence of any length. A vector of `U8` is written as raw bytes and
    /// its value is a `Blob`.
    Vector(Box<Shape>),
    /// A sequence of fixed length.
    Array(Box<Shape>, usize),
    /// A tuple; the arity is the number of shapes.
    Tuple(Vec<Shape>),
    /// Key/value pairs in the order they are met.
    Mapping(Box<Shape>, Box<Shape>),
    Struct(Box<StructDef>),
    Enum(Box<EnumDef>),
    /// A point in time: seconds and nanoseconds since the epoch.
    DateTime,
    /// A calendar date: days since the epoch.
    Date,
    /// A time of day: seconds since midnight and nanoseconds.
    Time,
    /// A decimal number: mantissa and scale.
    Decimal,
    /// A 128-bit identifier.
    Uuid,
    /// A JSON tree.
    Json,
}

/// A value of some shape.
#[derive(Debug, PartialEq, Eq)]
#[allow(inconsistent_fields)]
pub enum Value {
    Bool(bool),
    /// An unsigned integer of any width.
    Unsigned(u128),
    /// A signed integer of any width.
    Signed(i128),
    /// The bit pattern of a 32-bit float.
    F32(u32),
    /// The bit pattern of a 64-bit float.
    F64(u64),
    Char(char),
    Text(String),
    Blob(Vec<u8>),
    Maybe(Option<Box<Value>>),
    /// The elements of a vector or an array.
    List(Vec<Value>),
    Tuple(Vec<Value>),
    /// The entries of a mapping, in order.
    Pairs(Vec<(Value, Value)>),
    /// A struct: one value for each declared field, in declaration order.
    Record(Vec<Value>),
    /// An enum: the index of the variant in the declaration, and one value
    /// for each of its declared fields.
    Variant(usize, Vec<Value>),
    /// A point in time: seconds since 1970-01-01 00:00:00 UTC and
    /// nanoseconds since the last whole second.
    DateTime { seconds: i64, nanos: u32 },
    /// A calendar date: days since 1970-01-01.
    Date { days: i64 },
    /// A time of day: seconds since midnight and nanoseconds since the last
    /// whole second.
    Time { seconds: u32, nanos: u32 },
    /// A decimal number: the mantissa, and the number of its digits that
    /// stand behind the point.
    Decimal { mantissa: i128, scale: u32 },
    /// A 128-bit identifier.
    Uuid(u128),
    /// A JSON tree.
    Json(JsonValue),
}

/// What a [`Value`] is, over mathematical sequences.
#[allow(inconsistent_fields)]
pub enum Datum {
    Bool(bool),
    Unsigned(u128),
    Signed(i128),
    F32(u32),
    F64(u64),
    Char(char),
    Text(Seq<char>),
    Blob(Seq<u8>),
    Maybe(Option<Box<Datum>>),
    List(Seq<Datum>),
    Tuple(Seq<Datum>),
    Pairs(Seq<(Datum, Datum)>),
    Record(Seq<Datum>),
    Variant(usize, Seq<Datum>),
    DateTime { seconds: i64, nanos: u32 },
    Date { days: i64 },
    Time { seconds: u32, nanos: u32 },
    Decimal { mantissa: i128, scale: u32 },
    Uuid(u128),
    Json(JsonDatum),
}

/// What a value is, over mathematical sequences.
pub open spec fn datum_of(v: Value) -> Datum
    decreases v,
{
    match v {
        Value::Bool(b) => Datum::Bool(b),
        Value::Unsigned(n) => Datum::Unsigned(n),
        Value::Signed(n) => Datum::Signed(n),
        Value::Char(c) => Datum::Char(c),
        Value::F32(bits) => Datum::F32(bits),
        Value::F64(bits) => Datum::F64(bits),
        Value::Text(s) => Datum::Text(s@),
        Value::Blob(b) => Datum::Blob(b@),
        Value::Maybe(None) => Datum::Maybe(None),
        Value::Maybe(Some(inner)) => Datum::Maybe(Some(Box::new(datum_of(*inner)))),
        Value::List(items) => Datum::List(
            Seq::new(
                items@.len(),
                |i: int|
                    if 0 <= i < items@.len() {
                        datum_of(items@[i])
                    } else {
                        Datum::Bool(false)
                    },
            ),
        ),
        Value::Tuple(items) => Datum::Tuple(
            Seq::new(
                items@.len(),
                |i: int|
                    if 0 <= i < items@.len() {
                        datum_of(items@[i])
                    } else {
                        Datum::Bool(false)
                    },
            ),
        ),
        Value::Pairs(items) => Datum::Pairs(
            Seq::new(
                items@.len(),
                |i: int|
                    if 0 <= i < items@.len() {
                        (datum_of(items@[i].0), datum_of(items@[i].1))
                    } else {
                        (Datum::Bool(false), Datum::Bool(false))
                    },
            ),
        ),
        Value::Record(items) => Datum::Record(
            Seq::new(
                items@.len(),
                |i: int|
                    if 0 <= i < items@.len() {
                        datum_of(items@[i])
                    } else {
                        Datum::Bool(false)
                    },
            ),
        ),
        Value::Variant(index, items) => Datum::Variant(
            index,
            Seq::new(
                items@.len(),
                |i: int|
                    if 0 <= i < items@.len() {
                        datum_of(items@[i])
                    } else {
                        Datum::Bool(false)
                    },
            ),
        ),
        Value::DateTime { seconds, nanos } => Datum::DateTime { seconds, nanos },
        Value::Date { days } => Datum::Date { days },
        Value::Time { seconds, nanos } => Datum::Time { seconds, nanos },
        Value::Decimal { mantissa, scale } => Datum::Decimal { mantissa, scale },
        Value::Uuid(id) => Datum::Uuid(id),
        Value::Json(tree) => Datum::Json(tree@),
    }
}

impl View for Value {
    type V = Datum;

    open spec fn view(&self) -> Datum {
        datum_of(*self)
    }
}

/// The data of a sequence of values.
pub open spec fn data(items: Seq<Value>) -> Seq<Datum> {
    Seq::new(items.len(), |i: int| datum_of(items[i]))
}

/// The data of a sequence of pairs of values.
pub open spec fn pair_data(items: Seq<(Value, Value)>) -> Seq<(Datum, Datum)> {
    Seq::new(items.len(), |i: int| (datum_of(items[i].0), datum_of(items[i].1)))
}

/// The view of a value that holds a list of values is built from the views
/// of those values.
pub proof fn lemma_view_items(items: Vec<Value>)
    ensures
        Value::List(items)@ == Datum::List(data(items@)),
        Value::Tuple(items)@ == Datum::Tuple(data(items@)),
        Value::Record(items)@ == Datum::Record(data(items@)),
        forall|index: usize| #[trigger]
            Value::Variant(index, items)@ == Datum::Variant(index, data(items@)),
{
    assert(datum_of(Value::List(items))->List_0 =~= data(items@));
    assert(datum_of(Value::Tuple(items))->Tuple_0 =~= data(items@));
    assert(datum_of(Value::Record(items))->Record_0 =~= data(items@));
    assert forall|index: usize| #[trigger]
        Value::Variant(index, items)@ == Datum::Variant(index, data(items@)) by {
        assert(datum_of(Value::Variant(index, items))->Variant_1 =~= data(items@));
    }
}

/// The view of a value that holds pairs is built from the views of their
/// parts.
pub proof fn lemma_view_pairs(items: Vec<(Value, Value)>)
    ensures
        Value::Pairs(items)@ == Datum::Pairs(pair_data(items@)),
{
    assert(datum_of(Value::Pairs(items))->Pairs_0 =~= pair_data(items@));
}

impl Shape {
    /// The shape of what an optional value, a vector or an array holds.
    pub open spec fn element(self) -> Shape {
        match self {
            Shape::Optional(inner) => *inner,
            Shape::Vector(inner) => *inner,
            Shape::Array(inner, _) => *inner,
            _ => Shape::Bool,
        }
    }

    /// Whether this is the shape of a vector of `U8`, which is written as
    /// raw bytes.
    pub open spec fn is_byte_vector(self) -> bool {
        self matches Shape::Vector(inner) && *inner is U8
    }
}

impl Fields {
    /// The declared fields, in order; none for a unit.
    pub open spec fn list(self) -> Seq<FieldDef> {
        match self {
            Fields::Unit => Seq::empty(),
            Fields::Named(fields) => fields@,
            Fields::Unnamed(fields) => fields@,
        }
    }
}

} // verus!
