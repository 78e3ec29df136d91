//! The wire format of whole values: `wire`, `parse`, and the notions they
//! rest on (which values a shape admits, the zero value of a shape, which
//! fields a struct leaves out).

use vstd::prelude::*;
use crate::adapter::{
    date_wire, datetime_wire, decimal_wire, parse_date, parse_datetime, parse_decimal, parse_time,
    parse_uuid, time_wire, uuid_wire, valid_days, valid_decimal, valid_time, valid_timestamp,
};
use crate::error::{EnumFault, Fault, StructFault};
use crate::json::{json_conforms, json_wire, parse_json, JsonDatum};
use crate::le::{le_bytes, le_value};
use crate::model::{Datum, FieldDef, Fields, Mode, Shape, VariantDef};
use crate::schema::{enum_hash, struct_hash};
use crate::skip::skip_len;
use crate::spec::{
    blob_wire, bool_wire, char_wire, float_wire, id_wire, parse_blob, parse_bool,
    parse_byte_vector, parse_char, parse_counted, parse_f32, parse_f64, parse_id, parse_seq_len,
    parse_text, seq_len_wire, tail, text_wire, word_bits,
};
use crate::tag::{
    TAG_ENUM, TAG_ENUM_NAMED, TAG_ENUM_UNNAMED, TAG_F32, TAG_F64, TAG_MAP, TAG_NONE, TAG_SOME,
    TAG_STRUCT_NAMED, TAG_STRUCT_UNIT, TAG_STRUCT_UNNAMED, TAG_TUPLE,
};
use crate::varint::{int_wire, parse_int, parse_uint, uint_wire};

verus! {

// ---------------------------------------------------------------------
// Zero values
// ---------------------------------------------------------------------
/// The index of the variant that an enum's zero value takes: the first one
/// marked as default, or the first one if none is marked.
pub open spec fn default_variant(variants: Seq<VariantDef>, from: nat) -> nat
    decreases variants.len() - from,
{
    if from >= variants.len() {
        0
    } else if variants[from as int].is_default {
        from
    } else {
        default_variant(variants, from + 1)
    }
}

/// The zero value of a shape: what a field takes when the wire has nothing
/// for it and its policy allows that.
pub open spec fn zero(shape: Shape) -> Datum
    decreases shape, 1nat,
{
    match shape {
        Shape::Bool => Datum::Bool(false),
        Shape::Char => Datum::Char('\0'),
        Shape::U8 | Shape::U16 | Shape::U32 | Shape::U64 | Shape::U128 | Shape::Usize => {
            Datum::Unsigned(0)
        },
        Shape::I8 | Shape::I16 | Shape::I32 | Shape::I64 | Shape::I128 | Shape::Isize => {
            Datum::Signed(0)
        },
        Shape::F32 => Datum::F32(0),
        Shape::F64 => Datum::F64(0),
        Shape::Text => Datum::Text(Seq::empty()),
        Shape::Blob => Datum::Blob(Seq::empty()),
        Shape::Optional(_) => Datum::Maybe(None),
        Shape::Vector(inner) => if *inner is U8 {
            Datum::Blob(Seq::empty())
        } else {
            Datum::List(Seq::empty())
        },
        Shape::Array(inner, len) => Datum::List(Seq::new(len as nat, |i: int| zero(*inner))),
        Shape::Tuple(shapes) => Datum::Tuple(
            Seq::new(
                shapes@.len(),
                |i: int|
                    if 0 <= i < shapes@.len() {
                        zero(shapes@[i])
                    } else {
                        Datum::Bool(false)
                    },
            ),
        ),
        Shape::Mapping(_, _) => Datum::Pairs(Seq::empty()),
        Shape::Struct(def) => Datum::Record(zero_fields(def.fields)),
        Shape::Enum(def) => {
            let index = default_variant(def.variants@, 0);
            if index < def.variants@.len() {
                Datum::Variant(index as usize, zero_fields(def.variants@[index as int].fields))
            } else {
                Datum::Variant(0, Seq::empty())
            }
        },
        Shape::DateTime => Datum::DateTime { seconds: 0, nanos: 0 },
        Shape::Date => Datum::Date { days: 0 },
        Shape::Time => Datum::Time { seconds: 0, nanos: 0 },
        Shape::Decimal => Datum::Decimal { mantissa: 0, scale: 0 },
        Shape::Uuid => Datum::Uuid(0),
        Shape::Json => Datum::Json(JsonDatum::Null),
    }
}

/// The zero values of the fields of a declaration.
pub open spec fn zero_fields(fields: Fields) -> Seq<Datum>
    decreases fields, 0nat,
{
    match fields {
        Fields::Unit => Seq::empty(),
        Fields::Named(list) => Seq::new(
            list@.len(),
            |i: int|
                if 0 <= i < list@.len() {
                    zero(list@[i].shape)
                } else {
                    Datum::Bool(false)
                },
        ),
        Fields::Unnamed(list) => Seq::new(
            list@.len(),
            |i: int|
                if 0 <= i < list@.len() {
                    zero(list@[i].shape)
                } else {
                    Datum::Bool(false)
                },
        ),
    }
}

/// Whether every element from index `from` on is the zero value in the sense
/// of `is_zero`.
pub open spec fn all_zero(shape: Shape, items: Seq<Datum>, from: nat) -> bool
    decreases items, 0nat, items.len() - from,
{
    from >= items.len() || (is_zero(shape, items[from as int]) && all_zero(shape, items, from + 1))
}

/// The same for a tuple, whose elements have a shape each.
pub open spec fn all_zero_each(shapes: Seq<Shape>, items: Seq<Datum>, from: nat) -> bool
    decreases items, 0nat, items.len() - from,
{
    from >= items.len() || (from < shapes.len() && is_zero(shapes[from as int], items[from as int])
        && all_zero_each(shapes, items, from + 1))
}

/// The same for the fields of a declaration.
pub open spec fn all_zero_fields(fields: Seq<FieldDef>, items: Seq<Datum>, from: nat) -> bool
    decreases items, 0nat, items.len() - from,
{
    from >= items.len() || (from < fields.len() && is_zero(
        fields[from as int].shape,
        items[from as int],
    ) && all_zero_fields(fields, items, from + 1))
}

/// Whether a value counts as the default of its type, which a field with
/// the `skip_default` policy is then not written for.
///
/// Numbers are default at zero (a float at either zero), a character at
/// the null character, text and collections when empty, an optional when
/// absent, an array or tuple when every element is. A struct never is. An
/// enum is when its variant is the
/// one marked as default and every field of it is. A point in time and a
/// date are at the epoch, a time of day at midnight, a decimal when it is
/// zero, an identifier when it is 0, a JSON tree when it is null.
pub open spec fn is_zero(shape: Shape, d: Datum) -> bool
    decreases d, 1nat, 0nat,
{
    match d {
        Datum::Bool(b) => !b,
        Datum::Unsigned(n) => n == 0,
        Datum::Signed(n) => n == 0,
        Datum::Char(c) => c == '\0',
        Datum::F32(bits) => bits == 0 || bits == 0x8000_0000,
        Datum::F64(bits) => bits == 0 || bits == 0x8000_0000_0000_0000,
        Datum::Text(chars) => chars.len() == 0,
        Datum::Blob(bytes) => bytes.len() == 0,
        Datum::Maybe(inner) => inner is None,
        Datum::List(items) => match shape {
            Shape::Array(inner, _) => all_zero(*inner, items, 0),
            _ => items.len() == 0,
        },
        Datum::Tuple(items) => match shape {
            Shape::Tuple(shapes) => all_zero_each(shapes@, items, 0),
            _ => false,
        },
        Datum::Pairs(items) => items.len() == 0,
        Datum::Record(_) => false,
        Datum::Variant(index, items) => match shape {
            Shape::Enum(def) => index < def.variants@.len() && def.variants@[index as int].is_default
                && all_zero_fields(def.variants@[index as int].fields.list(), items, 0),
            _ => false,
        },
        Datum::DateTime { seconds, nanos } => seconds == 0 && nanos == 0,
        Datum::Date { days } => days == 0,
        Datum::Time { seconds, nanos } => seconds == 0 && nanos == 0,
        Datum::Decimal { mantissa, scale } => mantissa == 0,
        Datum::Uuid(id) => id == 0,
        Datum::Json(tree) => tree is Null,
    }
}

// ---------------------------------------------------------------------
// Which values a shape admits
// ---------------------------------------------------------------------
/// Whether an unsigned value fits a shape.
pub open spec fn unsigned_fits(shape: Shape, n: u128) -> bool {
    match shape {
        Shape::U8 => n <= u8::MAX,
        Shape::U16 => n <= u16::MAX,
        Shape::U32 => n <= u32::MAX,
        Shape::U64 => n <= u64::MAX,
        Shape::U128 => true,
        Shape::Usize => n <= usize::MAX,
        _ => false,
    }
}

/// Whether a signed value fits a shape.
pub open spec fn signed_fits(shape: Shape, n: i128) -> bool {
    match shape {
        Shape::I8 => i8::MIN <= n <= i8::MAX,
        Shape::I16 => i16::MIN <= n <= i16::MAX,
        Shape::I32 => i32::MIN <= n <= i32::MAX,
        Shape::I64 => i64::MIN <= n <= i64::MAX,
        Shape::I128 => true,
        Shape::Isize => isize::MIN <= n <= isize::MAX,
        _ => false,
    }
}

/// Whether the elements from index `from` on all conform to `shape`.
pub open spec fn conform_all(mode: Mode, shape: Shape, items: Seq<Datum>, from: nat) -> bool
    decreases items, 0nat, items.len() - from,
{
    from >= items.len() || (conforms(mode, shape, items[from as int]) && conform_all(
        mode,
        shape,
        items,
        from + 1,
    ))
}

/// The same for a tuple, whose elements have a shape each.
pub open spec fn conform_each(mode: Mode, shapes: Seq<Shape>, items: Seq<Datum>, from: nat) -> bool
    decreases items, 0nat, items.len() - from,
{
    from >= items.len() || (from < shapes.len() && conforms(
        mode,
        shapes[from as int],
        items[from as int],
    ) && conform_each(mode, shapes, items, from + 1))
}

/// The same for the fields of a declaration.
pub open spec fn conform_fields(
    mode: Mode,
    fields: Seq<FieldDef>,
    items: Seq<Datum>,
    from: nat,
) -> bool
    decreases items, 0nat, items.len() - from,
{
    from >= items.len() || (from < fields.len() && conforms(
        mode,
        fields[from as int].shape,
        items[from as int],
    ) && conform_fields(mode, fields, items, from + 1))
}

/// The same for the entries of a mapping.
pub open spec fn conform_pairs(
    mode: Mode,
    key: Shape,
    value: Shape,
    items: Seq<(Datum, Datum)>,
    from: nat,
) -> bool
    decreases items, 0nat, items.len() - from,
{
    from >= items.len() || (conforms(mode, key, items[from as int].0) && conforms(
        mode,
        value,
        items[from as int].1,
    ) && conform_pairs(mode, key, value, items, from + 1))
}

/// Whether `d` is a value of `shape` that can be written in `mode`.
///
/// Lengths must fit the pointer-sized integer that announces them. A 32-bit
/// float slot also holds a 64-bit float in tagged mode, where the tag tells
/// them apart.
pub open spec fn conforms(mode: Mode, shape: Shape, d: Datum) -> bool
    decreases d, 1nat, 0nat,
{
    match d {
        Datum::Bool(_) => shape is Bool,
        Datum::Unsigned(n) => unsigned_fits(shape, n),
        Datum::Signed(n) => signed_fits(shape, n),
        Datum::Char(_) => shape is Char,
        Datum::F32(_) => shape is F32,
        Datum::F64(_) => shape is F64 || (shape is F32 && mode == Mode::Tagged),
        Datum::Text(chars) => shape is Text && vstd::utf8::encode_utf8(chars).len() <= usize::MAX,
        Datum::Blob(bytes) => (shape is Blob || shape.is_byte_vector()) && bytes.len()
            <= usize::MAX,
        Datum::Maybe(None) => shape is Optional,
        Datum::Maybe(Some(inner)) => shape is Optional && conforms(mode, shape.element(), *inner),
        Datum::List(items) => match shape {
            Shape::Vector(inner) => !(*inner is U8) && items.len() <= usize::MAX && conform_all(
                mode,
                *inner,
                items,
                0,
            ),
            Shape::Array(inner, len) => items.len() == len && conform_all(mode, *inner, items, 0),
            _ => false,
        },
        Datum::Tuple(items) => match shape {
            Shape::Tuple(shapes) => items.len() == shapes@.len() && conform_each(
                mode,
                shapes@,
                items,
                0,
            ),
            _ => false,
        },
        Datum::Pairs(items) => match shape {
            Shape::Mapping(key, value) => items.len() <= usize::MAX && conform_pairs(
                mode,
                *key,
                *value,
                items,
                0,
            ),
            _ => false,
        },
        Datum::Record(items) => match shape {
            Shape::Struct(def) => items.len() == def.fields.list().len() && conform_fields(
                mode,
                def.fields.list(),
                items,
                0,
            ),
            _ => false,
        },
        Datum::Variant(index, items) => match shape {
            Shape::Enum(def) => index < def.variants@.len() && items.len()
                == def.variants@[index as int].fields.list().len() && conform_fields(
                mode,
                def.variants@[index as int].fields.list(),
                items,
                0,
            ),
            _ => false,
        },
        Datum::DateTime { seconds, nanos } => shape is DateTime && valid_timestamp(seconds, nanos),
        Datum::Date { days } => shape is Date && valid_days(days),
        Datum::Time { seconds, nanos } => shape is Time && valid_time(seconds, nanos),
        Datum::Decimal { mantissa, scale } => shape is Decimal && valid_decimal(mantissa, scale),
        Datum::Uuid(_) => shape is Uuid,
        Datum::Json(tree) => shape is Json && json_conforms(tree),
    }
}

// ---------------------------------------------------------------------
// Writing
// ---------------------------------------------------------------------
/// Whether tagged mode leaves the field out: it is never written, or it is
/// optional and absent, or it is not optional, has the `skip_default` policy
/// and holds its type's default.
pub open spec fn omitted(field: FieldDef, d: Datum) -> bool {
    field.attrs.skip_encode || (if field.shape is Optional {
        d matches Datum::Maybe(None)
    } else {
        field.attrs.skip_default && is_zero(field.shape, d)
    })
}

/// The shape of what tagged mode writes after a field's identifier: for an
/// optional field the shape inside, since presence says that it is there.
pub open spec fn payload_shape(shape: Shape) -> Shape {
    if shape is Optional {
        shape.element()
    } else {
        shape
    }
}

/// The elements from index `from` on, one after the other.
pub open spec fn wire_all(mode: Mode, shape: Shape, items: Seq<Datum>, from: nat) -> Seq<u8>
    decreases items, 0nat, items.len() - from,
{
    if from >= items.len() {
        Seq::empty()
    } else {
        wire(mode, shape, items[from as int]) + wire_all(mode, shape, items, from + 1)
    }
}

/// The elements of a tuple from index `from` on.
pub open spec fn wire_each(mode: Mode, shapes: Seq<Shape>, items: Seq<Datum>, from: nat) -> Seq<u8>
    decreases items, 0nat, items.len() - from,
{
    if from >= items.len() || from >= shapes.len() {
        Seq::empty()
    } else {
        wire(mode, shapes[from as int], items[from as int]) + wire_each(
            mode,
            shapes,
            items,
            from + 1,
        )
    }
}

/// The fields from index `from` on, by position.
pub open spec fn wire_fields(
    mode: Mode,
    fields: Seq<FieldDef>,
    items: Seq<Datum>,
    from: nat,
) -> Seq<u8>
    decreases items, 0nat, items.len() - from,
{
    if from >= items.len() || from >= fields.len() {
        Seq::empty()
    } else {
        wire(mode, fields[from as int].shape, items[from as int]) + wire_fields(
            mode,
            fields,
            items,
            from + 1,
        )
    }
}

/// The entries of a mapping from index `from` on: key, value, key, value.
pub open spec fn wire_pairs(
    mode: Mode,
    key: Shape,
    value: Shape,
    items: Seq<(Datum, Datum)>,
    from: nat,
) -> Seq<u8>
    decreases items, 0nat, items.len() - from,
{
    if from >= items.len() {
        Seq::empty()
    } else {
        wire(mode, key, items[from as int].0) + wire(mode, value, items[from as int].1)
            + wire_pairs(mode, key, value, items, from + 1)
    }
}

/// One named field in tagged mode: nothing if it is left out, else its
/// identifier and its payload.
pub open spec fn wire_named_field(field: FieldDef, d: Datum) -> Seq<u8>
    decreases d, 2nat, 0nat,
{
    if omitted(field, d) {
        Seq::empty()
    } else if field.shape is Optional {
        match d {
            Datum::Maybe(Some(inner)) => id_wire(field.attrs.id) + wire(
                Mode::Tagged,
                field.shape.element(),
                *inner,
            ),
            _ => Seq::empty(),
        }
    } else {
        id_wire(field.attrs.id) + wire(Mode::Tagged, field.shape, d)
    }
}

/// The named fields from index `from` on in tagged mode, then the terminator.
pub open spec fn wire_named(fields: Seq<FieldDef>, items: Seq<Datum>, from: nat) -> Seq<u8>
    decreases items, 3nat, items.len() - from,
{
    if from >= items.len() || from >= fields.len() {
        seq![0u8]
    } else {
        wire_named_field(fields[from as int], items[from as int]) + wire_named(
            fields,
            items,
            from + 1,
        )
    }
}

/// The body of a struct or variant after its tag and identifier, if any.
///
/// Tagged mode: identified fields and a terminator for named fields, a count
/// and the fields for positional ones. Packed mode: the structure hash and
/// the fields for named fields, a count and the fields for positional ones.
/// Nothing for a unit.
pub open spec fn wire_body(mode: Mode, fields: Fields, hash: u64, items: Seq<Datum>) -> Seq<u8>
    decreases items, 4nat, 0nat,
{
    match fields {
        Fields::Unit => Seq::empty(),
        Fields::Named(list) => if mode == Mode::Tagged {
            wire_named(list@, items, 0)
        } else {
            le_bytes(hash as nat, 8) + wire_fields(mode, list@, items, 0)
        },
        Fields::Unnamed(list) => uint_wire(list@.len()) + wire_fields(mode, list@, items, 0),
    }
}

/// The tag that a struct of these fields starts with in tagged mode.
pub open spec fn struct_tag(fields: Fields) -> u8 {
    match fields {
        Fields::Unit => TAG_STRUCT_UNIT,
        Fields::Named(_) => TAG_STRUCT_NAMED,
        Fields::Unnamed(_) => TAG_STRUCT_UNNAMED,
    }
}

/// The tag that an enum variant of these fields starts with in tagged mode.
pub open spec fn enum_tag(fields: Fields) -> u8 {
    match fields {
        Fields::Unit => TAG_ENUM,
        Fields::Named(_) => TAG_ENUM_NAMED,
        Fields::Unnamed(_) => TAG_ENUM_UNNAMED,
    }
}

/// The bytes that the value `d` of shape `shape` is written as in `mode`.
///
/// The result is meaningful when `conforms(mode, shape, d)`.
pub open spec fn wire(mode: Mode, shape: Shape, d: Datum) -> Seq<u8>
    decreases d, 1nat, 0nat,
{
    match d {
        Datum::Bool(b) => bool_wire(b),
        Datum::Unsigned(n) => uint_wire(n as nat),
        Datum::Signed(n) => int_wire(n as int),
        Datum::Char(c) => char_wire(c),
        Datum::F32(bits) => float_wire(mode, TAG_F32, bits as nat, 4),
        Datum::F64(bits) => float_wire(mode, TAG_F64, bits as nat, 8),
        Datum::Text(chars) => text_wire(chars),
        Datum::Blob(bytes) => blob_wire(bytes),
        Datum::Maybe(None) => seq![TAG_NONE],
        Datum::Maybe(Some(inner)) => seq![TAG_SOME] + wire(mode, shape.element(), *inner),
        Datum::List(items) => seq_len_wire(items.len()) + wire_all(mode, shape.element(), items, 0),
        Datum::Tuple(items) => match shape {
            Shape::Tuple(shapes) => seq![TAG_TUPLE] + uint_wire(items.len()) + wire_each(
                mode,
                shapes@,
                items,
                0,
            ),
            _ => Seq::empty(),
        },
        Datum::Pairs(items) => match shape {
            Shape::Mapping(key, value) => seq![TAG_MAP] + uint_wire(items.len()) + wire_pairs(
                mode,
                *key,
                *value,
                items,
                0,
            ),
            _ => Seq::empty(),
        },
        Datum::Record(items) => match shape {
            Shape::Struct(def) => if mode == Mode::Tagged {
                seq![struct_tag(def.fields)] + wire_body(mode, def.fields, 0, items)
            } else {
                wire_body(mode, def.fields, struct_hash(*def), items)
            },
            _ => Seq::empty(),
        },
        Datum::Variant(index, items) => match shape {
            Shape::Enum(def) => if index < def.variants@.len() {
                let variant = def.variants@[index as int];
                if mode == Mode::Tagged {
                    seq![enum_tag(variant.fields)] + id_wire(variant.id) + wire_body(
                        mode,
                        variant.fields,
                        0,
                        items,
                    )
                } else {
                    id_wire(variant.id) + wire_body(mode, variant.fields, enum_hash(*def), items)
                }
            } else {
                Seq::empty()
            },
            _ => Seq::empty(),
        },
        Datum::DateTime { seconds, nanos } => datetime_wire(mode, seconds, nanos),
        Datum::Date { days } => date_wire(days),
        Datum::Time { seconds, nanos } => time_wire(seconds, nanos),
        Datum::Decimal { mantissa, scale } => decimal_wire(mantissa, scale),
        Datum::Uuid(id) => uuid_wire(mode, id),
        Datum::Json(tree) => json_wire(tree),
    }
}

// ---------------------------------------------------------------------
// Reading
// ---------------------------------------------------------------------
/// A parsed number as an unsigned datum.
pub open spec fn as_unsigned(parsed: Result<(nat, nat), Fault>) -> Result<(Datum, nat), Fault> {
    match parsed {
        Ok((v, n)) => Ok((Datum::Unsigned(v as u128), n)),
        Err(f) => Err(f),
    }
}

/// A parsed number as a signed datum.
pub open spec fn as_signed(parsed: Result<(int, nat), Fault>) -> Result<(Datum, nat), Fault> {
    match parsed {
        Ok((v, n)) => Ok((Datum::Signed(v as i128), n)),
        Err(f) => Err(f),
    }
}

/// Whether a field must be on the wire: it is read, not optional, and has no
/// default policy.
pub open spec fn required(field: FieldDef) -> bool {
    !field.attrs.skip_decode && !(field.shape is Optional) && !field.attrs.default
        && !field.attrs.skip_default
}

/// The index of the first field, from `from` on, that is read and has the
/// identifier `id`; the number of fields if there is none.
pub open spec fn find_field(fields: Seq<FieldDef>, id: u64, from: nat) -> nat
    decreases fields.len() - from,
{
    if from >= fields.len() {
        fields.len()
    } else if !fields[from as int].attrs.skip_decode && fields[from as int].attrs.id == id {
        from
    } else {
        find_field(fields, id, from + 1)
    }
}

/// The index of the first required field, from `from` on, that the wire had
/// nothing for; the number of fields if there is none.
pub open spec fn first_missing(fields: Seq<FieldDef>, slots: Seq<Option<Datum>>, from: nat) -> nat
    decreases fields.len() - from,
{
    if from >= fields.len() {
        fields.len()
    } else if required(fields[from as int]) && (from >= slots.len() || slots[from as int] is None) {
        from
    } else {
        first_missing(fields, slots, from + 1)
    }
}

/// The value that a named field takes from what the wire had for it.
///
/// A field that is not read takes its zero value whatever the wire had. An
/// optional field is present or absent as the wire was. Any other field
/// takes the decoded value, or its zero value when there was none.
pub open spec fn field_value(field: FieldDef, slot: Option<Datum>) -> Datum {
    if field.attrs.skip_decode {
        zero(field.shape)
    } else if field.shape is Optional {
        match slot {
            Some(d) => Datum::Maybe(Some(Box::new(d))),
            None => Datum::Maybe(None),
        }
    } else {
        match slot {
            Some(d) => d,
            None => zero(field.shape),
        }
    }
}

/// The values of all named fields from what the wire had for each.
pub open spec fn assemble(fields: Seq<FieldDef>, slots: Seq<Option<Datum>>) -> Seq<Datum> {
    Seq::new(
        fields.len(),
        |i: int|
            field_value(
                fields[i],
                if 0 <= i < slots.len() {
                    slots[i]
                } else {
                    None
                },
            ),
    )
}

/// Nothing decoded yet for any of `count` fields.
pub open spec fn empty_slots(count: nat) -> Seq<Option<Datum>> {
    Seq::new(count, |i: int| None)
}

/// The index of the first variant, from `from` on, that has the identifier
/// `id` and, in tagged mode, the form that `tag` announces; the number of
/// variants if there is none.
pub open spec fn find_variant(
    mode: Mode,
    variants: Seq<VariantDef>,
    id: u64,
    tag: u8,
    from: nat,
) -> nat
    decreases variants.len() - from,
{
    if from >= variants.len() {
        variants.len()
    } else if variants[from as int].id == id && (mode == Mode::Packed || enum_tag(
        variants[from as int].fields,
    ) == tag) {
        from
    } else {
        find_variant(mode, variants, id, tag, from + 1)
    }
}

/// The items `front` read so far over `used` bytes, then what `next` reads.
pub open spec fn prepend<T>(front: Seq<T>, used: nat, next: Result<(Seq<T>, nat), Fault>) -> Result<
    (Seq<T>, nat),
    Fault,
> {
    match next {
        Ok((rest, n)) => Ok((front + rest, used + n)),
        Err(f) => Err(f),
    }
}

/// Reading `count` values of one shape in a row.
pub open spec fn parse_repeat(mode: Mode, shape: Shape, s: Seq<u8>, count: nat) -> Result<
    (Seq<Datum>, nat),
    Fault,
>
    decreases shape, 2nat, count,
{
    if count == 0 {
        Ok((Seq::empty(), 0nat))
    } else {
        match parse(mode, shape, s) {
            Err(f) => Err(f),
            Ok((d, n)) => match parse_repeat(mode, shape, tail(s, n), (count - 1) as nat) {
                Err(f) => Err(f),
                Ok((rest, m)) => Ok((seq![d] + rest, n + m)),
            },
        }
    }
}

/// Reading one value for each shape from index `from` on.
pub open spec fn parse_each(mode: Mode, shapes: Seq<Shape>, s: Seq<u8>, from: nat) -> Result<
    (Seq<Datum>, nat),
    Fault,
>
    decreases shapes, 0nat, shapes.len() - from,
{
    if from >= shapes.len() {
        Ok((Seq::empty(), 0nat))
    } else {
        match parse(mode, shapes[from as int], s) {
            Err(f) => Err(f),
            Ok((d, n)) => match parse_each(mode, shapes, tail(s, n), from + 1) {
                Err(f) => Err(f),
                Ok((rest, m)) => Ok((seq![d] + rest, n + m)),
            },
        }
    }
}

/// Reading one value for each field from index `from` on, by position.
pub open spec fn parse_fields(mode: Mode, fields: Seq<FieldDef>, s: Seq<u8>, from: nat) -> Result<
    (Seq<Datum>, nat),
    Fault,
>
    decreases fields, 0nat, fields.len() - from,
{
    if from >= fields.len() {
        Ok((Seq::empty(), 0nat))
    } else {
        match parse(mode, fields[from as int].shape, s) {
            Err(f) => Err(f),
            Ok((d, n)) => match parse_fields(mode, fields, tail(s, n), from + 1) {
                Err(f) => Err(f),
                Ok((rest, m)) => Ok((seq![d] + rest, n + m)),
            },
        }
    }
}

/// Reading one entry of the mapping shape `shape`: a key, then a value.
pub closed spec fn parse_pair(mode: Mode, shape: Shape, s: Seq<u8>) -> Result<
    ((Datum, Datum), nat),
    Fault,
>
    decreases shape, 0nat, 0nat,
{
    match shape {
        Shape::Mapping(key, value) => match parse(mode, *key, s) {
            Err(f) => Err(f),
            Ok((k, n)) => match parse(mode, *value, tail(s, n)) {
                Err(f) => Err(f),
                Ok((v, m)) => Ok(((k, v), n + m)),
            },
        },
        _ => Err(Fault::Decode),
    }
}

/// Reading `count` entries of the mapping shape `shape`.
pub open spec fn parse_pairs(mode: Mode, shape: Shape, s: Seq<u8>, count: nat) -> Result<
    (Seq<(Datum, Datum)>, nat),
    Fault,
>
    decreases shape, 0nat, count + 1,
{
    if count == 0 {
        Ok((Seq::empty(), 0nat))
    } else {
        match parse_pair(mode, shape, s) {
            Err(f) => Err(f),
            Ok((pair, n)) => match parse_pairs(mode, shape, tail(s, n), (count - 1) as nat) {
                Err(f) => Err(f),
                Ok((rest, m)) => Ok((seq![pair] + rest, n + m)),
            },
        }
    }
}

/// Reading the value that follows the identifier `id`: for a field that is
/// read, its index and the decoded value; for any other identifier nothing,
/// the value being skipped. With it, the bytes that the value takes.
///
/// Of an optional field the wire holds what is inside, since presence says
/// that it is there.
pub closed spec fn parse_entry(fields: Seq<FieldDef>, id: u64, s: Seq<u8>) -> Result<
    (Option<(nat, Datum)>, nat),
    Fault,
>
    decreases fields, 0nat, 0nat,
{
    let found = find_field(fields, id, 0);
    if found < fields.len() {
        match parse(Mode::Tagged, payload_shape(fields[found as int].shape), s) {
            Ok((d, m)) => Ok((Some((found, d)), m)),
            Err(f) => Err(f),
        }
    } else {
        match skip_len(s) {
            Ok(m) => Ok((None, m)),
            Err(f) => Err(f),
        }
    }
}

/// What `parse_entry` is: the value of a field that is read, decoded as the
/// field's payload, or else a value that is skipped.
pub proof fn lemma_parse_entry(fields: Seq<FieldDef>, id: u64, s: Seq<u8>)
    ensures
        parse_entry(fields, id, s) == (if find_field(fields, id, 0) < fields.len() {
            match parse(
                Mode::Tagged,
                payload_shape(fields[find_field(fields, id, 0) as int].shape),
                s,
            ) {
                Ok((d, m)) => Ok((Some((find_field(fields, id, 0), d)), m)),
                Err(f) => Err(f),
            }
        } else {
            match skip_len(s) {
                Ok(m) => Ok((None::<(nat, Datum)>, m)),
                Err(f) => Err(f),
            }
        }),
{
}

/// What `parse_pair` is: a key, then a value.
pub proof fn lemma_parse_pair(mode: Mode, shape: Shape, s: Seq<u8>)
    ensures
        parse_pair(mode, shape, s) == (match shape {
            Shape::Mapping(key, value) => match parse(mode, *key, s) {
                Err(f) => Err(f),
                Ok((k, n)) => match parse(mode, *value, tail(s, n)) {
                    Err(f) => Err(f),
                    Ok((v, m)) => Ok(((k, v), n + m)),
                },
            },
            _ => Err(Fault::Decode),
        }),
{
}

/// The slots after one more entry: a decoded value replaces what its
/// field's slot held, a skipped value changes nothing.
pub open spec fn store(slots: Seq<Option<Datum>>, entry: Option<(nat, Datum)>) -> Seq<
    Option<Datum>,
> {
    match entry {
        Some((index, d)) => slots.update(index as int, Some(d)),
        None => slots,
    }
}

/// Reading identified fields up to the terminator, in tagged mode.
///
/// `slots` holds what was decoded so far, one slot for each declared field.
/// Only the terminator ends the fields: input that ends before it is
/// insufficient, for a struct and for an enum variant alike.
pub open spec fn parse_named(fields: Seq<FieldDef>, s: Seq<u8>, slots: Seq<Option<Datum>>) -> Result<
    (Seq<Option<Datum>>, nat),
    Fault,
>
    decreases fields, 1nat, s.len(),
{
    match parse_id(s) {
        Err(f) => Err(f),
        Ok((id, n)) => if id == 0 {
            Ok((slots, n))
        } else {
            match parse_entry(fields, id, tail(s, n)) {
                Err(f) => Err(f),
                Ok((entry, m)) => match parse_named(
                    fields,
                    tail(tail(s, n), m),
                    store(slots, entry),
                ) {
                    Err(f) => Err(f),
                    Ok((filled, k)) => Ok((filled, n + m + k)),
                },
            }
        },
    }
}

/// The fault for a required field that the wire had nothing for.
pub open spec fn missing_fault(owner: Seq<char>, variant: Option<Seq<char>>, field: Seq<char>) -> Fault {
    match variant {
        None => Fault::Struct(StructFault::MissingRequiredField { field, struct_name: owner }),
        Some(variant_name) => Fault::Enum(
            EnumFault::MissingRequiredField { field, enum_name: owner, variant_name },
        ),
    }
}

/// The fault for a positional body written with another number of fields.
pub open spec fn count_fault(
    owner: Seq<char>,
    variant: Option<Seq<char>>,
    expected: usize,
    actual: usize,
) -> Fault {
    match variant {
        None => Fault::Struct(
            StructFault::FieldCountMismatch { struct_name: owner, expected, actual },
        ),
        Some(variant_name) => Fault::Enum(
            EnumFault::FieldCountMismatch { enum_name: owner, variant_name, expected, actual },
        ),
    }
}

/// The fault for packed data written for another layout.
pub open spec fn hash_fault(
    owner: Seq<char>,
    variant: Option<Seq<char>>,
    expected: u64,
    actual: u64,
) -> Fault {
    match variant {
        None => Fault::Struct(
            StructFault::StructureHashMismatch { struct_name: owner, expected, actual },
        ),
        Some(variant_name) => Fault::Enum(
            EnumFault::StructureHashMismatch { enum_name: owner, variant_name, expected, actual },
        ),
    }
}

/// Reading the body of a struct or variant: what follows its tag and
/// identifier. `owner` names the struct or enum and `variant` the variant,
/// for the faults; `hash` is the structure hash that packed data must carry.
pub open spec fn parse_body(
    mode: Mode,
    fields: Fields,
    s: Seq<u8>,
    owner: Seq<char>,
    variant: Option<Seq<char>>,
    hash: u64,
) -> Result<(Seq<Datum>, nat), Fault>
    decreases fields, 2nat, 0nat,
{
    match fields {
        Fields::Unit => Ok((Seq::empty(), 0nat)),
        Fields::Named(list) => if mode == Mode::Tagged {
            match parse_named(list@, s, empty_slots(list@.len())) {
                Err(f) => Err(f),
                Ok((slots, n)) => {
                    let missing = first_missing(list@, slots, 0);
                    if missing < list@.len() {
                        Err(missing_fault(owner, variant, list@[missing as int].name@))
                    } else {
                        Ok((assemble(list@, slots), n))
                    }
                },
            }
        } else if s.len() < 8 {
            Err(Fault::InsufficientData)
        } else if le_value(s.take(8)) != hash {
            Err(hash_fault(owner, variant, hash, le_value(s.take(8)) as u64))
        } else {
            match parse_fields(mode, list@, s.skip(8), 0) {
                Err(f) => Err(f),
                Ok((items, n)) => Ok((items, 8 + n)),
            }
        },
        Fields::Unnamed(list) => match parse_uint(s, word_bits()) {
            Err(f) => Err(f),
            Ok((count, n)) => if count != list@.len() {
                Err(count_fault(owner, variant, list@.len() as usize, count as usize))
            } else {
                match parse_fields(mode, list@, tail(s, n), 0) {
                    Err(f) => Err(f),
                    Ok((items, m)) => Ok((items, n + m)),
                }
            },
        },
    }
}

/// `used` bytes consumed so far, then the items that `next` read, made into
/// a datum by `make`.
pub open spec fn finish(
    used: nat,
    next: Result<(Seq<Datum>, nat), Fault>,
    make: spec_fn(Seq<Datum>) -> Datum,
) -> Result<(Datum, nat), Fault> {
    match next {
        Ok((items, n)) => Ok((make(items), used + n)),
        Err(f) => Err(f),
    }
}

/// What a decoder of `shape` in `mode` makes of the front of `s`: the value
/// and the number of bytes it takes, or the failure.
pub open spec fn parse(mode: Mode, shape: Shape, s: Seq<u8>) -> Result<(Datum, nat), Fault>
    decreases shape, 1nat, 0nat,
{
    match shape {
        Shape::Bool => match parse_bool(mode, s) {
            Ok((b, n)) => Ok((Datum::Bool(b), n)),
            Err(f) => Err(f),
        },
        Shape::U8 => as_unsigned(parse_uint(s, 8)),
        Shape::U16 => as_unsigned(parse_uint(s, 16)),
        Shape::U32 => as_unsigned(parse_uint(s, 32)),
        Shape::U64 => as_unsigned(parse_uint(s, 64)),
        Shape::U128 => as_unsigned(parse_uint(s, 128)),
        Shape::Usize => as_unsigned(parse_uint(s, word_bits())),
        Shape::I8 => as_signed(parse_int(s, 8)),
        Shape::I16 => as_signed(parse_int(s, 16)),
        Shape::I32 => as_signed(parse_int(s, 32)),
        Shape::I64 => as_signed(parse_int(s, 64)),
        Shape::I128 => as_signed(parse_int(s, 128)),
        Shape::Isize => as_signed(parse_int(s, word_bits())),
        Shape::Char => match parse_char(s) {
            Ok((c, n)) => Ok((Datum::Char(c), n)),
            Err(f) => Err(f),
        },
        Shape::F32 => parse_f32(mode, s),
        Shape::F64 => parse_f64(mode, s),
        Shape::Text => match parse_text(s) {
            Ok((chars, n)) => Ok((Datum::Text(chars), n)),
            Err(f) => Err(f),
        },
        Shape::Blob => match parse_blob(s) {
            Ok((bytes, n)) => Ok((Datum::Blob(bytes), n)),
            Err(f) => Err(f),
        },
        Shape::Optional(inner) => if s.len() == 0 {
            Err(Fault::InsufficientData)
        } else if s[0] == TAG_NONE {
            Ok((Datum::Maybe(None), 1nat))
        } else if s[0] == TAG_SOME {
            if mode == Mode::Tagged && s.len() == 1 {
                Err(Fault::InsufficientData)
            } else {
                match parse(mode, *inner, s.skip(1)) {
                    Ok((d, n)) => Ok((Datum::Maybe(Some(Box::new(d))), n + 1)),
                    Err(f) => Err(f),
                }
            }
        } else {
            Err(Fault::Decode)
        },
        Shape::Vector(inner) => if *inner is U8 {
            match parse_byte_vector(s) {
                Ok((bytes, n)) => Ok((Datum::Blob(bytes), n)),
                Err(f) => Err(f),
            }
        } else {
            match parse_seq_len(s) {
                Err(f) => Err(f),
                Ok((count, n)) => finish(
                    n,
                    parse_repeat(mode, *inner, tail(s, n), count),
                    |items: Seq<Datum>| Datum::List(items),
                ),
            }
        },
        Shape::Array(inner, len) => match parse_seq_len(s) {
            Err(f) => Err(f),
            Ok((count, n)) => if count != len {
                Err(Fault::Decode)
            } else {
                finish(
                    n,
                    parse_repeat(mode, *inner, tail(s, n), count),
                    |items: Seq<Datum>| Datum::List(items),
                )
            },
        },
        Shape::Tuple(shapes) => match parse_counted(TAG_TUPLE, s) {
            Err(f) => Err(f),
            Ok((count, n)) => if count != shapes@.len() {
                Err(Fault::Decode)
            } else {
                finish(
                    n,
                    parse_each(mode, shapes@, tail(s, n), 0),
                    |items: Seq<Datum>| Datum::Tuple(items),
                )
            },
        },
        Shape::Mapping(_, _) => match parse_counted(TAG_MAP, s) {
            Err(f) => Err(f),
            Ok((count, n)) => match parse_pairs(mode, shape, tail(s, n), count) {
                Ok((items, m)) => Ok((Datum::Pairs(items), n + m)),
                Err(f) => Err(f),
            },
        },
        Shape::Struct(def) => if mode == Mode::Packed {
            finish(
                0,
                parse_body(mode, def.fields, s, def.name@, None, struct_hash(*def)),
                |items: Seq<Datum>| Datum::Record(items),
            )
        } else if s.len() == 0 {
            Err(Fault::InsufficientData)
        } else if s[0] != struct_tag(def.fields) {
            Err(
                Fault::Struct(
                    StructFault::InvalidTag { expected: struct_tag(def.fields), actual: s[0] },
                ),
            )
        } else {
            finish(
                1,
                parse_body(mode, def.fields, s.skip(1), def.name@, None, 0),
                |items: Seq<Datum>| Datum::Record(items),
            )
        },
        Shape::Enum(def) => if mode == Mode::Tagged && s.len() == 0 {
            Err(Fault::InsufficientData)
        } else if mode == Mode::Tagged && s[0] != TAG_ENUM && s[0] != TAG_ENUM_NAMED && s[0]
            != TAG_ENUM_UNNAMED {
            Err(Fault::Enum(EnumFault::UnknownTag { tag: s[0], enum_name: def.name@ }))
        } else {
            let lead: nat = if mode == Mode::Tagged {
                1
            } else {
                0
            };
            let tag = if mode == Mode::Tagged {
                s[0]
            } else {
                0u8
            };
            match parse_id(tail(s, lead)) {
                Err(f) => Err(f),
                Ok((id, n)) => {
                    let index = find_variant(mode, def.variants@, id, tag, 0);
                    if index >= def.variants@.len() {
                        Err(
                            Fault::Enum(
                                EnumFault::UnknownVariantId { variant_id: id, enum_name: def.name@ },
                            ),
                        )
                    } else {
                        finish(
                            lead + n,
                            parse_body(
                                mode,
                                def.variants@[index as int].fields,
                                tail(s, lead + n),
                                def.name@,
                                Some(def.variants@[index as int].name@),
                                enum_hash(*def),
                            ),
                            |items: Seq<Datum>| Datum::Variant(index as usize, items),
                        )
                    }
                },
            }
        },
        Shape::DateTime => parse_datetime(mode, s),
        Shape::Date => parse_date(s),
        Shape::Time => parse_time(s),
        Shape::Decimal => parse_decimal(s),
        Shape::Uuid => parse_uuid(mode, s),
        Shape::Json => match parse_json(s) {
            Ok((tree, n)) => Ok((Datum::Json(tree), n)),
            Err(f) => Err(f),
        },
    }
}

} // verus!
