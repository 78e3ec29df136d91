//! Writing values of declared shapes, in either mode.

use bytes::BytesMut;
use vstd::prelude::*;
use crate::adapter::{write_date, write_datetime, write_decimal, write_time, write_uuid};
use crate::buffer::{put_u32_le, put_u64_le, put_u8, written};
use crate::codec::{encode_vec_length, encode_vec_u8, Encoder};
use crate::field_id::write_field_id_optimized;
use crate::json::write_json;
use crate::format::{
    conform_all, conform_each, conform_fields, conform_pairs, conforms, enum_tag, struct_tag, wire,
    wire_all, wire_body, wire_each, wire_fields, wire_named, wire_named_field, wire_pairs,
};
use crate::model::{
    data, lemma_view_items, lemma_view_pairs, pair_data, Datum, EnumDef, FieldDef, Fields, Mode,
    Shape, StructDef, Value,
};
use crate::schema::{enum_hash, enum_structure_hash, struct_hash, struct_structure_hash};
use crate::spec::{id_wire, seq_len_wire};
use crate::tag::{
    TAG_ENUM, TAG_ENUM_NAMED, TAG_ENUM_UNNAMED, TAG_F32, TAG_F64, TAG_MAP, TAG_NONE, TAG_SOME,
    TAG_STRUCT_NAMED, TAG_STRUCT_UNIT, TAG_STRUCT_UNNAMED, TAG_TUPLE,
};
use crate::value::is_default_value;
use crate::varint::uint_wire;

verus! {

/// Writes the values of one shape one after the other.
#[verifier::loop_isolation(false)]
fn write_all(mode: Mode, shape: &Shape, items: &Vec<Value>, writer: &mut BytesMut)
    requires
        conform_all(mode, *shape, data(items@), 0),
    ensures
        written(*final(writer)) == written(*old(writer)) + wire_all(mode, *shape, data(items@), 0),
    decreases items, 0nat,
{
    let ghost goal = written(*writer) + wire_all(mode, *shape, data(items@), 0);
    let mut i: usize = 0;
    while i < items.len()
        invariant
            i <= items.len(),
            conform_all(mode, *shape, data(items@), i as nat),
            written(*writer) + wire_all(mode, *shape, data(items@), i as nat) == goal,
        decreases items.len() - i,
    {
        assert(decreases_to!(items => items[i as int]));
        let ghost before = written(*writer);
        write_value(mode, shape, &items[i], writer);
        proof {
            let item = wire(mode, *shape, data(items@)[i as int]);
            let rest = wire_all(mode, *shape, data(items@), (i + 1) as nat);
            assert((before + item) + rest =~= before + (item + rest));
        }
        i += 1;
    }
    proof {
        assert(written(*writer) + Seq::<u8>::empty() =~= written(*writer));
    }
}

/// Writes the elements of a tuple, each of its own shape.
#[verifier::loop_isolation(false)]
fn write_each(mode: Mode, shapes: &Vec<Shape>, items: &Vec<Value>, writer: &mut BytesMut)
    requires
        items.len() == shapes.len(),
        conform_each(mode, shapes@, data(items@), 0),
    ensures
        written(*final(writer)) == written(*old(writer)) + wire_each(
            mode,
            shapes@,
            data(items@),
            0,
        ),
    decreases items, 0nat,
{
    let ghost goal = written(*writer) + wire_each(mode, shapes@, data(items@), 0);
    let mut i: usize = 0;
    while i < items.len()
        invariant
            i <= items.len(),
            conform_each(mode, shapes@, data(items@), i as nat),
            written(*writer) + wire_each(mode, shapes@, data(items@), i as nat) == goal,
        decreases items.len() - i,
    {
        assert(decreases_to!(items => items[i as int]));
        let ghost before = written(*writer);
        write_value(mode, &shapes[i], &items[i], writer);
        proof {
            let item = wire(mode, shapes@[i as int], data(items@)[i as int]);
            let rest = wire_each(mode, shapes@, data(items@), (i + 1) as nat);
            assert((before + item) + rest =~= before + (item + rest));
        }
        i += 1;
    }
    proof {
        assert(written(*writer) + Seq::<u8>::empty() =~= written(*writer));
    }
}

/// Writes the fields of a struct or variant by position.
#[verifier::loop_isolation(false)]
fn write_fields(mode: Mode, fields: &Vec<FieldDef>, items: &Vec<Value>, writer: &mut BytesMut)
    requires
        items.len() == fields.len(),
        conform_fields(mode, fields@, data(items@), 0),
    ensures
        written(*final(writer)) == written(*old(writer)) + wire_fields(
            mode,
            fields@,
            data(items@),
            0,
        ),
    decreases items, 0nat,
{
    let ghost goal = written(*writer) + wire_fields(mode, fields@, data(items@), 0);
    let mut i: usize = 0;
    while i < items.len()
        invariant
            i <= items.len(),
            conform_fields(mode, fields@, data(items@), i as nat),
            written(*writer) + wire_fields(mode, fields@, data(items@), i as nat) == goal,
        decreases items.len() - i,
    {
        assert(decreases_to!(items => items[i as int]));
        let ghost before = written(*writer);
        write_value(mode, &fields[i].shape, &items[i], writer);
        proof {
            let item = wire(mode, fields@[i as int].shape, data(items@)[i as int]);
            let rest = wire_fields(mode, fields@, data(items@), (i + 1) as nat);
            assert((before + item) + rest =~= before + (item + rest));
        }
        i += 1;
    }
    proof {
        assert(written(*writer) + Seq::<u8>::empty() =~= written(*writer));
    }
}

/// Writes the entries of a mapping: key, value, key, value.
#[verifier::loop_isolation(false)]
fn write_pairs(
    mode: Mode,
    key: &Shape,
    value: &Shape,
    items: &Vec<(Value, Value)>,
    writer: &mut BytesMut,
)
    requires
        conform_pairs(mode, *key, *value, pair_data(items@), 0),
    ensures
        written(*final(writer)) == written(*old(writer)) + wire_pairs(
            mode,
            *key,
            *value,
            pair_data(items@),
            0,
        ),
    decreases items, 0nat,
{
    let ghost goal = written(*writer) + wire_pairs(mode, *key, *value, pair_data(items@), 0);
    let mut i: usize = 0;
    while i < items.len()
        invariant
            i <= items.len(),
            conform_pairs(mode, *key, *value, pair_data(items@), i as nat),
            written(*writer) + wire_pairs(mode, *key, *value, pair_data(items@), i as nat) == goal,
        decreases items.len() - i,
    {
        assert(decreases_to!(items => items[i as int]));
        let ghost before = written(*writer);
        write_value(mode, key, &items[i].0, writer);
        write_value(mode, value, &items[i].1, writer);
        proof {
            let k = wire(mode, *key, pair_data(items@)[i as int].0);
            let v = wire(mode, *value, pair_data(items@)[i as int].1);
            let rest = wire_pairs(mode, *key, *value, pair_data(items@), (i + 1) as nat);
            assert(((before + k) + v) + rest =~= before + (k + v + rest));
        }
        i += 1;
    }
    proof {
        assert(written(*writer) + Seq::<u8>::empty() =~= written(*writer));
    }
}

/// Writes one named field in tagged mode, unless its policy or its value
/// leaves it out: the identifier, then the value. Of an optional field that
/// is present, what it holds is written.
fn write_named_field(field: &FieldDef, value: &Value, writer: &mut BytesMut)
    requires
        conforms(Mode::Tagged, field.shape, value@),
    ensures
        written(*final(writer)) == written(*old(writer)) + wire_named_field(*field, value@),
    decreases value, 2nat,
{
    if field.attrs.skip_encode {
        proof {
            assert(written(*writer) + Seq::<u8>::empty() =~= written(*writer));
        }
        return ;
    }
    match &field.shape {
        Shape::Optional(inner_shape) => {
            match value {
                Value::Maybe(Some(inner)) => {
                    let _ = write_field_id_optimized(writer, field.attrs.id);
                    write_value(Mode::Tagged, inner_shape, inner, writer);
                    proof {
                        let a = id_wire(field.attrs.id);
                        let b = wire(Mode::Tagged, **inner_shape, (**inner)@);
                        assert((written(*old(writer)) + a) + b =~= written(*old(writer)) + (a + b));
                    }
                },
                _ => {
                    proof {
                        assert(written(*writer) + Seq::<u8>::empty() =~= written(*writer));
                    }
                },
            }
        },
        _ => {
            if field.attrs.skip_default && is_default_value(&field.shape, value) {
                proof {
                    assert(written(*writer) + Seq::<u8>::empty() =~= written(*writer));
                }
            } else {
                let _ = write_field_id_optimized(writer, field.attrs.id);
                write_value(Mode::Tagged, &field.shape, value, writer);
                proof {
                    let a = id_wire(field.attrs.id);
                    let b = wire(Mode::Tagged, field.shape, value@);
                    assert((written(*old(writer)) + a) + b =~= written(*old(writer)) + (a + b));
                }
            }
        },
    }
}

/// Writes the named fields of a struct or variant in tagged mode, then the
/// terminator.
#[verifier::loop_isolation(false)]
fn write_named(fields: &Vec<FieldDef>, items: &Vec<Value>, writer: &mut BytesMut)
    requires
        items.len() == fields.len(),
        conform_fields(Mode::Tagged, fields@, data(items@), 0),
    ensures
        written(*final(writer)) == written(*old(writer)) + wire_named(fields@, data(items@), 0),
    decreases items, 3nat,
{
    let ghost goal = written(*writer) + wire_named(fields@, data(items@), 0);
    let mut i: usize = 0;
    while i < items.len()
        invariant
            i <= items.len(),
            conform_fields(Mode::Tagged, fields@, data(items@), i as nat),
            written(*writer) + wire_named(fields@, data(items@), i as nat) == goal,
        decreases items.len() - i,
    {
        assert(decreases_to!(items => items[i as int]));
        let ghost before = written(*writer);
        write_named_field(&fields[i], &items[i], writer);
        proof {
            let item = wire_named_field(fields@[i as int], data(items@)[i as int]);
            let rest = wire_named(fields@, data(items@), (i + 1) as nat);
            assert((before + item) + rest =~= before + (item + rest));
        }
        i += 1;
    }
    let _ = write_field_id_optimized(writer, 0);
}

/// Writes the body of a struct or variant: what follows its tag and
/// identifier. `hash` is the structure hash that packed named fields carry.
fn write_body(mode: Mode, fields: &Fields, hash: u64, items: &Vec<Value>, writer: &mut BytesMut)
    requires
        items@.len() == fields.list().len(),
        conform_fields(mode, fields.list(), data(items@), 0),
    ensures
        written(*final(writer)) == written(*old(writer)) + wire_body(
            mode,
            *fields,
            hash,
            data(items@),
        ),
    decreases items, 4nat,
{
    match fields {
        Fields::Unit => {
            proof {
                assert(written(*writer) + Seq::<u8>::empty() =~= written(*writer));
            }
        },
        Fields::Named(list) => {
            if mode == Mode::Tagged {
                write_named(list, items, writer);
            } else {
                put_u64_le(writer, hash);
                write_fields(mode, list, items, writer);
                proof {
                    let a = crate::le::le_bytes(hash as nat, 8);
                    let b = wire_fields(mode, list@, data(items@), 0);
                    assert((written(*old(writer)) + a) + b =~= written(*old(writer)) + (a + b));
                }
            }
        },
        Fields::Unnamed(list) => {
            let count = list.len();
            let _ = count.encode(writer);
            write_fields(mode, list, items, writer);
            proof {
                let a = uint_wire(list@.len());
                let b = wire_fields(mode, list@, data(items@), 0);
                assert((written(*old(writer)) + a) + b =~= written(*old(writer)) + (a + b));
            }
        },
    }
}

/// Writes a struct: in tagged mode the tag of its form and the body, in
/// packed mode the body alone.
fn write_struct(mode: Mode, def: &StructDef, items: &Vec<Value>, writer: &mut BytesMut)
    requires
        items@.len() == def.fields.list().len(),
        conform_fields(mode, def.fields.list(), data(items@), 0),
    ensures
        written(*final(writer)) == written(*old(writer)) + wire(
            mode,
            Shape::Struct(Box::new(*def)),
            Datum::Record(data(items@)),
        ),
    decreases items, 5nat,
{
    if mode == Mode::Tagged {
        let tag = match &def.fields {
            Fields::Unit => TAG_STRUCT_UNIT,
            Fields::Named(_) => TAG_STRUCT_NAMED,
            Fields::Unnamed(_) => TAG_STRUCT_UNNAMED,
        };
        put_u8(writer, tag);
        write_body(mode, &def.fields, 0, items, writer);
        proof {
            let a = seq![tag];
            let b = wire_body(mode, def.fields, 0, data(items@));
            assert((written(*old(writer)) + a) + b =~= written(*old(writer)) + (a + b));
            assert(tag == struct_tag(def.fields));
            assert(wire(mode, Shape::Struct(Box::new(*def)), Datum::Record(data(items@))) == a + b);
        }
    } else {
        let hash = match &def.fields {
            Fields::Named(_) => struct_structure_hash(def),
            _ => 0,
        };
        write_body(mode, &def.fields, hash, items, writer);
        proof {
            assert(wire_body(mode, def.fields, hash, data(items@)) == wire_body(
                mode,
                def.fields,
                struct_hash(*def),
                data(items@),
            ));
            assert(wire(mode, Shape::Struct(Box::new(*def)), Datum::Record(data(items@)))
                == wire_body(mode, def.fields, struct_hash(*def), data(items@)));
        }
    }
}

/// Writes an enum variant: in tagged mode the tag of its form, the variant
/// identifier and the body; in packed mode the identifier and the body.
fn write_variant(
    mode: Mode,
    def: &EnumDef,
    index: usize,
    items: &Vec<Value>,
    writer: &mut BytesMut,
)
    requires
        index < def.variants@.len(),
        items@.len() == def.variants@[index as int].fields.list().len(),
        conform_fields(mode, def.variants@[index as int].fields.list(), data(items@), 0),
    ensures
        written(*final(writer)) == written(*old(writer)) + wire(
            mode,
            Shape::Enum(Box::new(*def)),
            Datum::Variant(index, data(items@)),
        ),
    decreases items, 5nat,
{
    let variant = &def.variants[index];
    if mode == Mode::Tagged {
        let tag = match &variant.fields {
            Fields::Unit => TAG_ENUM,
            Fields::Named(_) => TAG_ENUM_NAMED,
            Fields::Unnamed(_) => TAG_ENUM_UNNAMED,
        };
        put_u8(writer, tag);
        let _ = write_field_id_optimized(writer, variant.id);
        write_body(mode, &variant.fields, 0, items, writer);
        proof {
            let a = seq![tag];
            let b = id_wire(variant.id);
            let c = wire_body(mode, variant.fields, 0, data(items@));
            assert(((written(*old(writer)) + a) + b) + c =~= written(*old(writer)) + (a + b + c));
            assert(tag == enum_tag(variant.fields));
            assert(wire(mode, Shape::Enum(Box::new(*def)), Datum::Variant(index, data(items@)))
                == a + b + c);
        }
    } else {
        let hash = match &variant.fields {
            Fields::Named(_) => enum_structure_hash(def),
            _ => 0,
        };
        let _ = write_field_id_optimized(writer, variant.id);
        write_body(mode, &variant.fields, hash, items, writer);
        proof {
            let b = id_wire(variant.id);
            let c = wire_body(mode, variant.fields, hash, data(items@));
            assert((written(*old(writer)) + b) + c =~= written(*old(writer)) + (b + c));
            assert(c == wire_body(mode, variant.fields, enum_hash(*def), data(items@)));
            assert(wire(mode, Shape::Enum(Box::new(*def)), Datum::Variant(index, data(items@)))
                == b + c);
        }
    }
}

/// Writes a value of a shape in a mode.
pub(crate) fn write_value(mode: Mode, shape: &Shape, value: &Value, writer: &mut BytesMut)
    requires
        conforms(mode, *shape, value@),
    ensures
        written(*final(writer)) == written(*old(writer)) + wire(mode, *shape, value@),
    decreases value, 1nat,
{
    match value {
        Value::Bool(b) => {
            let _ = b.encode(writer);
        },
        Value::Unsigned(n) => {
            let _ = n.encode(writer);
        },
        Value::Signed(n) => {
            let _ = n.encode(writer);
        },
        Value::Char(c) => {
            let _ = c.encode(writer);
        },
        Value::F32(bits) => {
            if mode == Mode::Tagged {
                put_u8(writer, TAG_F32);
                put_u32_le(writer, *bits);
                proof {
                    assert(written(*writer) =~= written(*old(writer)) + wire(
                        mode,
                        *shape,
                        value@,
                    ));
                }
            } else {
                put_u32_le(writer, *bits);
            }
        },
        Value::F64(bits) => {
            if mode == Mode::Tagged {
                put_u8(writer, TAG_F64);
                put_u64_le(writer, *bits);
                proof {
                    assert(written(*writer) =~= written(*old(writer)) + wire(
                        mode,
                        *shape,
                        value@,
                    ));
                }
            } else {
                put_u64_le(writer, *bits);
            }
        },
        Value::Text(text) => {
            let _ = text.encode(writer);
        },
        Value::Blob(bytes) => {
            let _ = encode_vec_u8(bytes.as_slice(), writer);
        },
        Value::Maybe(None) => {
            put_u8(writer, TAG_NONE);
        },
        Value::Maybe(Some(inner)) => {
            match shape {
                Shape::Optional(inner_shape) => {
                    put_u8(writer, TAG_SOME);
                    write_value(mode, inner_shape, inner, writer);
                    proof {
                        let a = seq![TAG_SOME];
                        let b = wire(mode, **inner_shape, (**inner)@);
                        assert((written(*old(writer)) + a) + b =~= written(*old(writer)) + (a
                            + b));
                    }
                },
                _ => {},
            }
        },
        Value::List(items) => {
            proof {
                lemma_view_items(*items);
            }
            match shape {
                Shape::Vector(inner) => {
                    let _ = encode_vec_length(items.len(), writer);
                    write_all(mode, inner, items, writer);
                    proof {
                        let a = seq_len_wire(items@.len());
                        let b = wire_all(mode, **inner, data(items@), 0);
                        assert((written(*old(writer)) + a) + b =~= written(*old(writer)) + (a
                            + b));
                    }
                },
                Shape::Array(inner, _) => {
                    let _ = encode_vec_length(items.len(), writer);
                    write_all(mode, inner, items, writer);
                    proof {
                        let a = seq_len_wire(items@.len());
                        let b = wire_all(mode, **inner, data(items@), 0);
                        assert((written(*old(writer)) + a) + b =~= written(*old(writer)) + (a
                            + b));
                    }
                },
                _ => {},
            }
        },
        Value::Tuple(items) => {
            proof {
                lemma_view_items(*items);
            }
            match shape {
                Shape::Tuple(shapes) => {
                    put_u8(writer, TAG_TUPLE);
                    let count = items.len();
                    let _ = count.encode(writer);
                    write_each(mode, shapes, items, writer);
                    proof {
                        let a = seq![TAG_TUPLE];
                        let b = uint_wire(items@.len());
                        let c = wire_each(mode, shapes@, data(items@), 0);
                        assert(((written(*old(writer)) + a) + b) + c =~= written(*old(writer))
                            + (a + b + c));
                    }
                },
                _ => {},
            }
        },
        Value::Pairs(items) => {
            proof {
                lemma_view_pairs(*items);
            }
            match shape {
                Shape::Mapping(key, value_shape) => {
                    put_u8(writer, TAG_MAP);
                    let count = items.len();
                    let _ = count.encode(writer);
                    write_pairs(mode, key, value_shape, items, writer);
                    proof {
                        let a = seq![TAG_MAP];
                        let b = uint_wire(items@.len());
                        let c = wire_pairs(mode, **key, **value_shape, pair_data(items@), 0);
                        assert(((written(*old(writer)) + a) + b) + c =~= written(*old(writer))
                            + (a + b + c));
                    }
                },
                _ => {},
            }
        },
        Value::DateTime { seconds, nanos } => {
            write_datetime(mode, *seconds, *nanos, writer);
        },
        Value::Date { days } => {
            write_date(*days, writer);
        },
        Value::Time { seconds, nanos } => {
            write_time(*seconds, *nanos, writer);
        },
        Value::Decimal { mantissa, scale } => {
            write_decimal(*mantissa, *scale, writer);
        },
        Value::Uuid(id) => {
            write_uuid(mode, *id, writer);
        },
        Value::Json(tree) => {
            write_json(tree, writer);
        },
        Value::Record(items) => {
            proof {
                lemma_view_items(*items);
            }
            match shape {
                Shape::Struct(def) => {
                    write_struct(mode, def, items, writer);
                },
                _ => {},
            }
        },
        Value::Variant(index, items) => {
            proof {
                lemma_view_items(*items);
            }
            match shape {
                Shape::Enum(def) => {
                    write_variant(mode, def, *index, items, writer);
                },
                _ => {},
            }
        },
    }
}

} // verus!
