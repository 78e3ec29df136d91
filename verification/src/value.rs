//! Values of declared shapes: their zero values and defaults.

use vstd::prelude::*;
use crate::format::{
    all_zero, all_zero_each, all_zero_fields, default_variant, is_zero, signed_fits,
    unsigned_fits, zero, zero_fields,
};
use crate::json::JsonValue;
use crate::model::{
    data, lemma_view_items, lemma_view_pairs, pair_data, Datum, FieldDef, Fields, Shape, Value,
    VariantDef,
};

verus! {

/// Whether an unsigned value fits a shape.
pub fn fits_unsigned(shape: &Shape, n: u128) -> (r: bool)
    ensures
        r == unsigned_fits(*shape, n),
{
    match shape {
        Shape::U8 => n <= 0xFF,
        Shape::U16 => n <= 0xFFFF,
        Shape::U32 => n <= 0xFFFF_FFFF,
        Shape::U64 => n <= 0xFFFF_FFFF_FFFF_FFFF,
        Shape::U128 => true,
        Shape::Usize => n <= usize::MAX as u128,
        _ => false,
    }
}

/// Whether a signed value fits a shape.
pub fn fits_signed(shape: &Shape, n: i128) -> (r: bool)
    ensures
        r == signed_fits(*shape, n),
{
    match shape {
        Shape::I8 => -0x80 <= n && n <= 0x7F,
        Shape::I16 => -0x8000 <= n && n <= 0x7FFF,
        Shape::I32 => -0x8000_0000 <= n && n <= 0x7FFF_FFFF,
        Shape::I64 => -0x8000_0000_0000_0000 <= n && n <= 0x7FFF_FFFF_FFFF_FFFF,
        Shape::I128 => true,
        Shape::Isize => isize::MIN as i128 <= n && n <= isize::MAX as i128,
        _ => false,
    }
}

/// The declared fields, in order; none for a unit.
pub fn field_list(fields: &Fields) -> (r: Option<&Vec<FieldDef>>)
    ensures
        match r {
            Some(list) => !(fields is Unit) && list@ == fields.list(),
            None => fields is Unit,
        },
{
    match fields {
        Fields::Unit => None,
        Fields::Named(list) => Some(list),
        Fields::Unnamed(list) => Some(list),
    }
}

/// Whether all of `items` are defaults of one shape.
#[verifier::loop_isolation(false)]
fn all_default(shape: &Shape, items: &Vec<Value>) -> (r: bool)
    ensures
        r == all_zero(*shape, data(items@), 0),
    decreases items, 0nat,
{
    let mut i: usize = 0;
    while i < items.len()
        invariant
            i <= items.len(),
            all_zero(*shape, data(items@), 0) == all_zero(*shape, data(items@), i as nat),
        decreases items.len() - i,
    {
        assert(decreases_to!(items => items[i as int]));
        if !is_default_value(shape, &items[i]) {
            return false;
        }
        i += 1;
    }
    true
}

/// Whether all of `items` are defaults, each of its own shape.
#[verifier::loop_isolation(false)]
fn all_default_each(shapes: &Vec<Shape>, items: &Vec<Value>) -> (r: bool)
    ensures
        r == all_zero_each(shapes@, data(items@), 0),
    decreases items, 0nat,
{
    if shapes.len() < items.len() {
        proof {
            lemma_all_zero_each_short(shapes@, data(items@), 0);
        }
        return false;
    }
    let mut i: usize = 0;
    while i < items.len()
        invariant
            i <= items.len(),
            items.len() <= shapes.len(),
            all_zero_each(shapes@, data(items@), 0) == all_zero_each(shapes@, data(items@), i as nat),
        decreases items.len() - i,
    {
        assert(decreases_to!(items => items[i as int]));
        if !is_default_value(&shapes[i], &items[i]) {
            return false;
        }
        i += 1;
    }
    true
}

/// Whether all of `items` are defaults, each of its field's shape.
#[verifier::loop_isolation(false)]
fn all_default_fields(fields: &Vec<FieldDef>, items: &Vec<Value>) -> (r: bool)
    ensures
        r == all_zero_fields(fields@, data(items@), 0),
    decreases items, 0nat,
{
    if fields.len() < items.len() {
        proof {
            lemma_all_zero_fields_short(fields@, data(items@), 0);
        }
        return false;
    }
    let mut i: usize = 0;
    while i < items.len()
        invariant
            i <= items.len(),
            items.len() <= fields.len(),
            all_zero_fields(fields@, data(items@), 0) == all_zero_fields(fields@, data(items@), i as nat),
        decreases items.len() - i,
    {
        assert(decreases_to!(items => items[i as int]));
        if !is_default_value(&fields[i].shape, &items[i]) {
            return false;
        }
        i += 1;
    }
    true
}

/// With fewer shapes than items, not every item has a shape to be the
/// default of.
proof fn lemma_all_zero_each_short(shapes: Seq<Shape>, items: Seq<Datum>, from: nat)
    requires
        shapes.len() < items.len(),
        from <= shapes.len(),
    ensures
        !all_zero_each(shapes, items, from),
    decreases shapes.len() - from,
{
    if from < shapes.len() {
        lemma_all_zero_each_short(shapes, items, from + 1);
    }
}

/// With fewer fields than items, not every item has a field to be the
/// default of.
proof fn lemma_all_zero_fields_short(fields: Seq<FieldDef>, items: Seq<Datum>, from: nat)
    requires
        fields.len() < items.len(),
        from <= fields.len(),
    ensures
        !all_zero_fields(fields, items, from),
    decreases fields.len() - from,
{
    if from < fields.len() {
        lemma_all_zero_fields_short(fields, items, from + 1);
    }
}

/// Whether a value is the default of its type, which a field with the
/// `skip_default` policy is not written for.
pub fn is_default_value(shape: &Shape, value: &Value) -> (r: bool)
    ensures
        r == is_zero(*shape, value@),
    decreases value, 1nat,
{
    match value {
        Value::Bool(b) => !*b,
        Value::Unsigned(n) => *n == 0,
        Value::Signed(n) => *n == 0,
        Value::Char(c) => *c == '\0',
        Value::F32(bits) => *bits == 0 || *bits == 0x8000_0000,
        Value::F64(bits) => *bits == 0 || *bits == 0x8000_0000_0000_0000,
        Value::Text(s) => s.as_str().is_empty(),
        Value::Blob(b) => b.len() == 0,
        Value::Maybe(inner) => inner.is_none(),
        Value::List(items) => {
            proof {
                lemma_view_items(*items);
            }
            match shape {
                Shape::Array(inner, _) => all_default(inner, items),
                _ => items.len() == 0,
            }
        },
        Value::Tuple(items) => {
            proof {
                lemma_view_items(*items);
            }
            match shape {
                Shape::Tuple(shapes) => all_default_each(shapes, items),
                _ => false,
            }
        },
        Value::Pairs(items) => {
            proof {
                lemma_view_pairs(*items);
            }
            items.len() == 0
        },
        Value::Record(_) => false,
        Value::DateTime { seconds, nanos } => *seconds == 0 && *nanos == 0,
        Value::Date { days } => *days == 0,
        Value::Time { seconds, nanos } => *seconds == 0 && *nanos == 0,
        Value::Decimal { mantissa, scale } => *mantissa == 0,
        Value::Uuid(id) => *id == 0,
        Value::Json(tree) => match tree {
            JsonValue::Null => true,
            _ => false,
        },
        Value::Variant(index, items) => {
            proof {
                lemma_view_items(*items);
            }
            match shape {
                Shape::Enum(def) => {
                    if *index < def.variants.len() && def.variants[*index].is_default {
                        match field_list(&def.variants[*index].fields) {
                            Some(list) => all_default_fields(list, items),
                            None => items.len() == 0,
                        }
                    } else {
                        false
                    }
                },
                _ => false,
            }
        },
    }
}

/// Whether a shape is that of unsigned 8-bit integers.
pub fn is_byte_shape(shape: &Shape) -> (r: bool)
    ensures
        r == (*shape is U8),
{
    match shape {
        Shape::U8 => true,
        _ => false,
    }
}

/// The index of the variant that an enum's zero value takes.
pub fn default_variant_index(variants: &Vec<VariantDef>) -> (r: usize)
    ensures
        r == default_variant(variants@, 0),
{
    let mut i: usize = 0;
    while i < variants.len()
        invariant
            i <= variants.len(),
            default_variant(variants@, 0) == default_variant(variants@, i as nat),
        decreases variants.len() - i,
    {
        if variants[i].is_default {
            return i;
        }
        i += 1;
    }
    0
}

/// The zero values of the fields of a declaration.
#[verifier::loop_isolation(false)]
pub fn zero_field_values(fields: &Fields) -> (r: Vec<Value>)
    ensures
        data(r@) == zero_fields(*fields),
    decreases fields, 0nat,
{
    let mut out: Vec<Value> = Vec::new();
    match field_list(fields) {
        None => {
            assert(data(out@) =~= zero_fields(*fields));
        },
        Some(list) => {
            let mut i: usize = 0;
            while i < list.len()
                invariant
                    i <= list.len(),
                    out@.len() == i,
                    forall|j: int| 0 <= j < i ==> (#[trigger] out@[j])@ == zero(list@[j].shape),
                decreases list.len() - i,
            {
                assert(decreases_to!(list => list[i as int]));
                let v = zero_value(&list[i].shape);
                out.push(v);
                i += 1;
            }
            assert(data(out@) =~= zero_fields(*fields));
        },
    }
    out
}

/// The zero value of a shape: what a field takes when the wire has nothing
/// for it and its policy allows that.
#[verifier::loop_isolation(false)]
pub fn zero_value(shape: &Shape) -> (r: Value)
    ensures
        r@ == zero(*shape),
    decreases shape, 1nat,
{
    match shape {
        Shape::Bool => Value::Bool(false),
        Shape::Char => Value::Char('\0'),
        Shape::U8 | Shape::U16 | Shape::U32 | Shape::U64 | Shape::U128 | Shape::Usize => {
            Value::Unsigned(0)
        },
        Shape::I8 | Shape::I16 | Shape::I32 | Shape::I64 | Shape::I128 | Shape::Isize => {
            Value::Signed(0)
        },
        Shape::F32 => Value::F32(0),
        Shape::F64 => Value::F64(0),
        Shape::Text => Value::Text(String::new()),
        Shape::Blob => Value::Blob(Vec::new()),
        Shape::Optional(_) => Value::Maybe(None),
        Shape::Vector(inner) => {
            if is_byte_shape(inner) {
                Value::Blob(Vec::new())
            } else {
                let items: Vec<Value> = Vec::new();
                proof {
                    lemma_view_items(items);
                    assert(data(items@) =~= Seq::<Datum>::empty());
                }
                Value::List(items)
            }
        },
        Shape::Array(inner, len) => {
            let mut items: Vec<Value> = Vec::new();
            let mut i: usize = 0;
            while i < *len
                invariant
                    i <= *len,
                    items@.len() == i,
                    forall|j: int| 0 <= j < i ==> (#[trigger] items@[j])@ == zero(**inner),
                decreases *len - i,
            {
                let v = zero_value(inner);
                items.push(v);
                i += 1;
            }
            proof {
                lemma_view_items(items);
                assert(data(items@) =~= Seq::new(*len as nat, |i: int| zero(**inner)));
            }
            Value::List(items)
        },
        Shape::Tuple(shapes) => {
            let mut items: Vec<Value> = Vec::new();
            let mut i: usize = 0;
            while i < shapes.len()
                invariant
                    i <= shapes.len(),
                    items@.len() == i,
                    forall|j: int| 0 <= j < i ==> (#[trigger] items@[j])@ == zero(shapes@[j]),
                decreases shapes.len() - i,
            {
                assert(decreases_to!(shapes => shapes[i as int]));
                let v = zero_value(&shapes[i]);
                items.push(v);
                i += 1;
            }
            proof {
                lemma_view_items(items);
                assert(data(items@) =~= zero(*shape)->Tuple_0);
            }
            Value::Tuple(items)
        },
        Shape::Mapping(_, _) => {
            let items: Vec<(Value, Value)> = Vec::new();
            proof {
                lemma_view_pairs(items);
                assert(pair_data(items@) =~= Seq::<(Datum, Datum)>::empty());
            }
            Value::Pairs(items)
        },
        Shape::DateTime => Value::DateTime { seconds: 0, nanos: 0 },
        Shape::Date => Value::Date { days: 0 },
        Shape::Time => Value::Time { seconds: 0, nanos: 0 },
        Shape::Decimal => Value::Decimal { mantissa: 0, scale: 0 },
        Shape::Uuid => Value::Uuid(0),
        Shape::Json => Value::Json(JsonValue::Null),
        Shape::Struct(def) => {
            let items = zero_field_values(&def.fields);
            proof {
                lemma_view_items(items);
            }
            Value::Record(items)
        },
        Shape::Enum(def) => {
            let index = default_variant_index(&def.variants);
            if index < def.variants.len() {
                assert(decreases_to!(def.variants => def.variants[index as int]));
                let items = zero_field_values(&def.variants[index].fields);
                proof {
                    lemma_view_items(items);
                }
                Value::Variant(index, items)
            } else {
                let items: Vec<Value> = Vec::new();
                proof {
                    lemma_view_items(items);
                    assert(data(items@) =~= Seq::<Datum>::empty());
                }
                Value::Variant(0, items)
            }
        },
    }
}

} // verus!
