//! Whether a value is one of a shape.

use vstd::prelude::*;
use crate::adapter::{days_are_valid, decimal_is_valid, time_is_valid, timestamp_is_valid};
use crate::json::json_fits;
use crate::format::{conform_all, conform_each, conform_fields, conform_pairs, conforms};
use crate::model::{
    data, lemma_view_items, lemma_view_pairs, pair_data, FieldDef, Fields, Mode, Shape, Value,
};
use crate::value::{field_list, fits_signed, fits_unsigned, is_byte_shape};

verus! {

/// Whether all of `items` are values of one shape.
#[verifier::loop_isolation(false)]
fn all_conform(mode: Mode, shape: &Shape, items: &Vec<Value>) -> (r: bool)
    ensures
        r == conform_all(mode, *shape, data(items@), 0),
    decreases items, 0nat,
{
    let mut i: usize = 0;
    while i < items.len()
        invariant
            i <= items.len(),
            conform_all(mode, *shape, data(items@), 0) == conform_all(
                mode,
                *shape,
                data(items@),
                i as nat,
            ),
        decreases items.len() - i,
    {
        assert(decreases_to!(items => items[i as int]));
        if !conforms_to(mode, shape, &items[i]) {
            return false;
        }
        i += 1;
    }
    true
}

/// Whether all of `items` are values of their own shapes. There must be a
/// shape for each.
#[verifier::loop_isolation(false)]
fn each_conform(mode: Mode, shapes: &Vec<Shape>, items: &Vec<Value>) -> (r: bool)
    requires
        items.len() <= shapes.len(),
    ensures
        r == conform_each(mode, shapes@, data(items@), 0),
    decreases items, 0nat,
{
    let mut i: usize = 0;
    while i < items.len()
        invariant
            i <= items.len(),
            conform_each(mode, shapes@, data(items@), 0) == conform_each(
                mode,
                shapes@,
                data(items@),
                i as nat,
            ),
        decreases items.len() - i,
    {
        assert(decreases_to!(items => items[i as int]));
        if !conforms_to(mode, &shapes[i], &items[i]) {
            return false;
        }
        i += 1;
    }
    true
}

/// Whether all of `items` are values of their fields' shapes. There must be
/// a field for each.
#[verifier::loop_isolation(false)]
fn fields_conform(mode: Mode, fields: &Vec<FieldDef>, items: &Vec<Value>) -> (r: bool)
    requires
        items.len() <= fields.len(),
    ensures
        r == conform_fields(mode, fields@, data(items@), 0),
    decreases items, 0nat,
{
    let mut i: usize = 0;
    while i < items.len()
        invariant
            i <= items.len(),
            conform_fields(mode, fields@, data(items@), 0) == conform_fields(
                mode,
                fields@,
                data(items@),
                i as nat,
            ),
        decreases items.len() - i,
    {
        assert(decreases_to!(items => items[i as int]));
        if !conforms_to(mode, &fields[i].shape, &items[i]) {
            return false;
        }
        i += 1;
    }
    true
}

/// Whether all entries have a key of the key shape and a value of the value
/// shape.
#[verifier::loop_isolation(false)]
fn pairs_conform(mode: Mode, key: &Shape, value: &Shape, items: &Vec<(Value, Value)>) -> (r: bool)
    ensures
        r == conform_pairs(mode, *key, *value, pair_data(items@), 0),
    decreases items, 0nat,
{
    let mut i: usize = 0;
    while i < items.len()
        invariant
            i <= items.len(),
            conform_pairs(mode, *key, *value, pair_data(items@), 0) == conform_pairs(
                mode,
                *key,
                *value,
                pair_data(items@),
                i as nat,
            ),
        decreases items.len() - i,
    {
        assert(decreases_to!(items => items[i as int]));
        if !conforms_to(mode, key, &items[i].0) {
            return false;
        }
        if !conforms_to(mode, value, &items[i].1) {
            return false;
        }
        i += 1;
    }
    true
}

/// Whether the body of a struct or variant has one value of the right shape
/// for each declared field.
fn body_conforms(mode: Mode, fields: &Fields, items: &Vec<Value>) -> (r: bool)
    ensures
        r == (items@.len() == fields.list().len() && conform_fields(
            mode,
            fields.list(),
            data(items@),
            0,
        )),
    decreases items, 1nat,
{
    match field_list(fields) {
        None => items.len() == 0,
        Some(list) => items.len() == list.len() && fields_conform(mode, list, items),
    }
}

/// Whether `value` is a value of `shape` that can be written in `mode`.
pub fn conforms_to(mode: Mode, shape: &Shape, value: &Value) -> (r: bool)
    ensures
        r == conforms(mode, *shape, value@),
    decreases value, 2nat,
{
    match value {
        Value::Bool(_) => match shape {
            Shape::Bool => true,
            _ => false,
        },
        Value::Unsigned(n) => fits_unsigned(shape, *n),
        Value::Signed(n) => fits_signed(shape, *n),
        Value::Char(_) => match shape {
            Shape::Char => true,
            _ => false,
        },
        Value::F32(_) => match shape {
            Shape::F32 => true,
            _ => false,
        },
        Value::F64(_) => match shape {
            Shape::F64 => true,
            Shape::F32 => mode == Mode::Tagged,
            _ => false,
        },
        Value::Text(text) => {
            let len = text.as_str().as_bytes().len();
            match shape {
                Shape::Text => true,
                _ => false,
            }
        },
        Value::Blob(bytes) => {
            let len = bytes.len();
            match shape {
                Shape::Blob => true,
                Shape::Vector(inner) => is_byte_shape(inner),
                _ => false,
            }
        },
        Value::Maybe(None) => match shape {
            Shape::Optional(_) => true,
            _ => false,
        },
        Value::Maybe(Some(inner)) => match shape {
            Shape::Optional(inner_shape) => conforms_to(mode, inner_shape, inner),
            _ => false,
        },
        Value::List(items) => {
            proof {
                lemma_view_items(*items);
            }
            let len = items.len();
            match shape {
                Shape::Vector(inner) => !is_byte_shape(inner) && all_conform(mode, inner, items),
                Shape::Array(inner, count) => len == *count && all_conform(mode, inner, items),
                _ => false,
            }
        },
        Value::Tuple(items) => {
            proof {
                lemma_view_items(*items);
            }
            match shape {
                Shape::Tuple(shapes) => items.len() == shapes.len() && each_conform(
                    mode,
                    shapes,
                    items,
                ),
                _ => false,
            }
        },
        Value::Pairs(items) => {
            proof {
                lemma_view_pairs(*items);
            }
            let len = items.len();
            match shape {
                Shape::Mapping(key, value) => pairs_conform(mode, key, value, items),
                _ => false,
            }
        },
        Value::DateTime { seconds, nanos } => match shape {
            Shape::DateTime => timestamp_is_valid(*seconds, *nanos),
            _ => false,
        },
        Value::Date { days } => match shape {
            Shape::Date => days_are_valid(*days),
            _ => false,
        },
        Value::Time { seconds, nanos } => match shape {
            Shape::Time => time_is_valid(*seconds, *nanos),
            _ => false,
        },
        Value::Decimal { mantissa, scale } => match shape {
            Shape::Decimal => decimal_is_valid(*mantissa, *scale),
            _ => false,
        },
        Value::Uuid(_) => match shape {
            Shape::Uuid => true,
            _ => false,
        },
        Value::Json(tree) => match shape {
            Shape::Json => json_fits(tree),
            _ => false,
        },
        Value::Record(items) => {
            proof {
                lemma_view_items(*items);
            }
            match shape {
                Shape::Struct(def) => body_conforms(mode, &def.fields, items),
                _ => false,
            }
        },
        Value::Variant(index, items) => {
            proof {
                lemma_view_items(*items);
            }
            match shape {
                Shape::Enum(def) => *index < def.variants.len() && body_conforms(
                    mode,
                    &def.variants[*index].fields,
                    items,
                ),
                _ => false,
            }
        },
    }
}

} // verus!
