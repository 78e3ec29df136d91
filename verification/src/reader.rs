//! Reading values of declared shapes, in either mode.

use bytes::Bytes;
use vstd::prelude::*;
use crate::adapter::{read_date, read_datetime, read_decimal, read_time, read_uuid};
use crate::buffer::{copy_to_vec, get_u64_le, get_u8, remaining, unread};
use crate::codec::{decode_text_length, decode_vec_length, Decoder, Float32, Float64, Unpacker};
use crate::error::{EncoderError, EnumDecodeError, Fault, StructDecodeError};
use crate::field_id::read_field_id_optimized;
use crate::json::read_json;
use crate::format::{
    assemble, count_fault, lemma_parse_entry, lemma_parse_pair, empty_slots, field_value,
    find_field, find_variant, finish, first_missing, hash_fault, missing_fault, parse, parse_body,
    parse_each, parse_fields, parse_entry, parse_named, parse_pair, parse_pairs, parse_repeat,
    store, prepend, required,
};
use crate::model::{
    data, lemma_view_items, lemma_view_pairs, pair_data, Datum, EnumDef, FieldDef, Fields, Mode,
    Shape, StructDef, Value, VariantDef,
};
use crate::schema::{enum_hash, enum_structure_hash, struct_hash, struct_structure_hash};
use crate::skip::skip_value;
use crate::spec::{lemma_skip_twice, parse_blob, parse_counted, parse_seq_len, tail, word_bits};
use crate::tag::{
    TAG_BINARY, TAG_ENUM, TAG_ENUM_NAMED, TAG_ENUM_UNNAMED, TAG_MAP, TAG_NONE, TAG_SOME,
    TAG_STRING_BASE, TAG_STRING_LONG, TAG_STRUCT_NAMED, TAG_STRUCT_UNIT, TAG_STRUCT_UNNAMED,
    TAG_TUPLE,
};
use crate::text::with_number;
use crate::value::{is_byte_shape, zero_value};
use crate::varint::{lemma_parse_uint_bounds, parse_uint};

verus! {

/// The reader went from `before` to `after` by consuming `n` bytes.
pub open spec fn advanced(before: Seq<u8>, after: Seq<u8>, n: nat) -> bool {
    n <= before.len() && after == before.skip(n as int)
}

/// Two advances in a row are one.
pub proof fn lemma_advanced_twice(s0: Seq<u8>, s1: Seq<u8>, s2: Seq<u8>, a: nat, b: nat)
    requires
        advanced(s0, s1, a),
        advanced(s1, s2, b),
    ensures
        advanced(s0, s2, a + b),
        tail(s0, a) == s1,
        tail(s1, b) == s2,
        tail(tail(s0, a), b) == s2,
{
    lemma_skip_twice(s0, a, b);
}

/// No bytes consumed is an advance.
pub proof fn lemma_advanced_none(s: Seq<u8>)
    ensures
        advanced(s, s, 0),
        tail(s, 0) == s,
{
    assert(s.skip(0) =~= s);
}

/// What reading one value must have done, given what the format says of the
/// bytes the reader started with.
pub open spec fn read_one(
    expected: Result<(Datum, nat), Fault>,
    before: Seq<u8>,
    after: Seq<u8>,
    r: Result<Value, EncoderError>,
) -> bool {
    match expected {
        Ok((d, n)) => r matches Ok(v) && v@ == d && advanced(before, after, n),
        Err(f) => r matches Err(e) && e@ == f,
    }
}

/// The same for reading several values.
pub open spec fn read_many(
    expected: Result<(Seq<Datum>, nat), Fault>,
    before: Seq<u8>,
    after: Seq<u8>,
    r: Result<Vec<Value>, EncoderError>,
) -> bool {
    match expected {
        Ok((items, n)) => r matches Ok(v) && data(v@) == items && advanced(before, after, n),
        Err(f) => r matches Err(e) && e@ == f,
    }
}

/// What has been decoded so far for each field.
pub open spec fn slot_data(slots: Seq<Option<Value>>) -> Seq<Option<Datum>> {
    Seq::new(
        slots.len(),
        |i: int|
            match slots[i] {
                Some(v) => Some(v@),
                None => None,
            },
    )
}

/// Reads a count and reports how the reader moved.
fn read_count(reader: &mut Bytes) -> (r: Result<usize, EncoderError>)
    ensures
        match parse_uint(unread(*old(reader)), word_bits()) {
            Ok((len, n)) => r matches Ok(x) && x == len && n >= 1 && advanced(
                unread(*old(reader)),
                unread(*final(reader)),
                n,
            ),
            Err(f) => r matches Err(e) && e@ == f,
        },
{
    proof {
        lemma_parse_uint_bounds(unread(*reader), word_bits());
    }
    usize::decode(reader)
}

/// Reads a tag that must be `tag`, then a count.
fn read_counted(tag: u8, reader: &mut Bytes) -> (r: Result<usize, EncoderError>)
    ensures
        match parse_counted(tag, unread(*old(reader))) {
            Ok((len, n)) => r matches Ok(x) && x == len && n >= 1 && advanced(
                unread(*old(reader)),
                unread(*final(reader)),
                n,
            ),
            Err(f) => r matches Err(e) && e@ == f,
        },
{
    if remaining(reader) == 0 {
        return Err(EncoderError::InsufficientData);
    }
    let ghost s = unread(*reader);
    let found = get_u8(reader);
    if found != tag {
        return Err(
            EncoderError::Decode(with_number("Unexpected tag for a counted value: ", found as u128)),
        );
    }
    let ghost rest = unread(*reader);
    let r = read_count(reader);
    proof {
        match parse_uint(rest, word_bits()) {
            Ok((_, n)) => lemma_advanced_twice(s, rest, unread(*reader), 1, n),
            Err(_) => {},
        }
    }
    r
}

/// Reads raw bytes written under the binary tag or under a text tag.
fn read_blob(reader: &mut Bytes) -> (r: Result<Vec<u8>, EncoderError>)
    ensures
        match parse_blob(unread(*old(reader))) {
            Ok((bytes, n)) => r matches Ok(v) && v@ == bytes && advanced(
                unread(*old(reader)),
                unread(*final(reader)),
                n,
            ),
            Err(f) => r matches Err(e) && e@ == f,
        },
{
    if remaining(reader) == 0 {
        return Err(EncoderError::InsufficientData);
    }
    let ghost s = unread(*reader);
    let tag = get_u8(reader);
    let ghost rest = unread(*reader);
    let len = if tag == TAG_BINARY {
        match read_count(reader) {
            Ok(len) => len,
            Err(e) => {
                return Err(e);
            },
        }
    } else if TAG_STRING_BASE <= tag && tag <= TAG_STRING_LONG {
        match decode_text_length(tag, reader) {
            Ok(len) => len,
            Err(e) => {
                return Err(e);
            },
        }
    } else {
        return Err(
            EncoderError::Decode(
                with_number("Expected Bytes tag (181 or 139..=180), got ", tag as u128),
            ),
        );
    };
    let ghost body = unread(*reader);
    let ghost lead = (s.len() - body.len()) as nat;
    proof {
        lemma_advanced_twice(s, rest, body, 1, (lead - 1) as nat);
    }
    if remaining(reader) < len {
        return Err(EncoderError::InsufficientData);
    }
    let out = copy_to_vec(reader, len);
    proof {
        lemma_advanced_twice(s, body, unread(*reader), lead, len as nat);
    }
    Ok(out)
}

/// Reads `count` values of one shape in a row.
#[verifier::loop_isolation(false)]
fn read_repeat(mode: Mode, shape: &Shape, count: usize, reader: &mut Bytes) -> (r: Result<
    Vec<Value>,
    EncoderError,
>)
    ensures
        read_many(
            parse_repeat(mode, *shape, unread(*old(reader)), count as nat),
            unread(*old(reader)),
            unread(*final(reader)),
            r,
        ),
    decreases shape, 2nat,
{
    let ghost start = unread(*reader);
    let ghost whole = parse_repeat(mode, *shape, start, count as nat);
    proof {
        lemma_advanced_none(start);
        match whole {
            Ok((items, n)) => {
                assert(Seq::<Datum>::empty() + items =~= items);
            },
            Err(_) => {},
        }
    }
    let mut out: Vec<Value> = Vec::new();
    assert(data(out@) =~= Seq::<Datum>::empty());
    let mut i: usize = 0;
    let ghost mut used: nat = 0;
    while i < count
        invariant
            i <= count,
            out@.len() == i,
            advanced(start, unread(*reader), used),
            whole == prepend(
                data(out@),
                used,
                parse_repeat(mode, *shape, unread(*reader), (count - i) as nat),
            ),
        decreases count - i,
    {
        let ghost cur = unread(*reader);
        let ghost front = data(out@);
        match read_value(mode, shape, reader) {
            Ok(value) => {
                out.push(value);
            },
            Err(e) => {
                return Err(e);
            },
        }
        proof {
            match parse(mode, *shape, cur) {
                Ok((d, n)) => {
                    lemma_advanced_twice(start, cur, unread(*reader), used, n);
                    assert(data(out@) =~= front.push(d));
                    match parse_repeat(mode, *shape, tail(cur, n), (count - i - 1) as nat) {
                        Ok((more, m)) => {
                            assert(front + (seq![d] + more) =~= front.push(d) + more);
                        },
                        Err(_) => {},
                    }
                    used = used + n;
                },
                Err(_) => {},
            }
        }
        i += 1;
    }
    proof {
        assert(data(out@) + Seq::<Datum>::empty() =~= data(out@));
    }
    Ok(out)
}

/// Reads one value for each shape.
#[verifier::loop_isolation(false)]
fn read_each(mode: Mode, shapes: &Vec<Shape>, reader: &mut Bytes) -> (r: Result<
    Vec<Value>,
    EncoderError,
>)
    ensures
        read_many(
            parse_each(mode, shapes@, unread(*old(reader)), 0),
            unread(*old(reader)),
            unread(*final(reader)),
            r,
        ),
    decreases shapes, 0nat,
{
    let ghost start = unread(*reader);
    let ghost whole = parse_each(mode, shapes@, start, 0);
    proof {
        lemma_advanced_none(start);
        match whole {
            Ok((items, n)) => {
                assert(Seq::<Datum>::empty() + items =~= items);
            },
            Err(_) => {},
        }
    }
    let mut out: Vec<Value> = Vec::new();
    assert(data(out@) =~= Seq::<Datum>::empty());
    let mut i: usize = 0;
    let ghost mut used: nat = 0;
    while i < shapes.len()
        invariant
            i <= shapes.len(),
            out@.len() == i,
            advanced(start, unread(*reader), used),
            whole == prepend(data(out@), used, parse_each(mode, shapes@, unread(*reader), i as nat)),
        decreases shapes.len() - i,
    {
        let ghost cur = unread(*reader);
        let ghost front = data(out@);
        assert(decreases_to!(shapes => shapes[i as int]));
        match read_value(mode, &shapes[i], reader) {
            Ok(value) => {
                out.push(value);
            },
            Err(e) => {
                return Err(e);
            },
        }
        proof {
            match parse(mode, shapes@[i as int], cur) {
                Ok((d, n)) => {
                    lemma_advanced_twice(start, cur, unread(*reader), used, n);
                    assert(data(out@) =~= front.push(d));
                    match parse_each(mode, shapes@, tail(cur, n), (i + 1) as nat) {
                        Ok((more, m)) => {
                            assert(front + (seq![d] + more) =~= front.push(d) + more);
                        },
                        Err(_) => {},
                    }
                    used = used + n;
                },
                Err(_) => {},
            }
        }
        i += 1;
    }
    proof {
        assert(data(out@) + Seq::<Datum>::empty() =~= data(out@));
    }
    Ok(out)
}

/// Reads one value for each field, by position.
#[verifier::loop_isolation(false)]
fn read_fields(mode: Mode, fields: &Vec<FieldDef>, reader: &mut Bytes) -> (r: Result<
    Vec<Value>,
    EncoderError,
>)
    ensures
        read_many(
            parse_fields(mode, fields@, unread(*old(reader)), 0),
            unread(*old(reader)),
            unread(*final(reader)),
            r,
        ),
    decreases fields, 0nat,
{
    let ghost start = unread(*reader);
    let ghost whole = parse_fields(mode, fields@, start, 0);
    proof {
        lemma_advanced_none(start);
        match whole {
            Ok((items, n)) => {
                assert(Seq::<Datum>::empty() + items =~= items);
            },
            Err(_) => {},
        }
    }
    let mut out: Vec<Value> = Vec::new();
    assert(data(out@) =~= Seq::<Datum>::empty());
    let mut i: usize = 0;
    let ghost mut used: nat = 0;
    while i < fields.len()
        invariant
            i <= fields.len(),
            out@.len() == i,
            advanced(start, unread(*reader), used),
            whole == prepend(
                data(out@),
                used,
                parse_fields(mode, fields@, unread(*reader), i as nat),
            ),
        decreases fields.len() - i,
    {
        let ghost cur = unread(*reader);
        let ghost front = data(out@);
        assert(decreases_to!(fields => fields[i as int]));
        match read_value(mode, &fields[i].shape, reader) {
            Ok(value) => {
                out.push(value);
            },
            Err(e) => {
                return Err(e);
            },
        }
        proof {
            match parse(mode, fields@[i as int].shape, cur) {
                Ok((d, n)) => {
                    lemma_advanced_twice(start, cur, unread(*reader), used, n);
                    assert(data(out@) =~= front.push(d));
                    match parse_fields(mode, fields@, tail(cur, n), (i + 1) as nat) {
                        Ok((more, m)) => {
                            assert(front + (seq![d] + more) =~= front.push(d) + more);
                        },
                        Err(_) => {},
                    }
                    used = used + n;
                },
                Err(_) => {},
            }
        }
        i += 1;
    }
    proof {
        assert(data(out@) + Seq::<Datum>::empty() =~= data(out@));
    }
    Ok(out)
}

/// Reads one entry of a mapping: a key, then a value.
fn read_pair(mode: Mode, shape: &Shape, reader: &mut Bytes) -> (r: Result<
    (Value, Value),
    EncoderError,
>)
    requires
        shape is Mapping,
    ensures
        match parse_pair(mode, *shape, unread(*old(reader))) {
            Ok((pair, n)) => r matches Ok(v) && (v.0@, v.1@) == pair && advanced(
                unread(*old(reader)),
                unread(*final(reader)),
                n,
            ),
            Err(f) => r matches Err(e) && e@ == f,
        },
    decreases shape, 0nat, 0nat,
{
    proof {
        lemma_parse_pair(mode, *shape, unread(*reader));
    }
    let ghost s = unread(*reader);
    match shape {
        Shape::Mapping(key, value) => {
            let k = match read_value(mode, key, reader) {
                Ok(k) => k,
                Err(e) => {
                    return Err(e);
                },
            };
            let ghost mid = unread(*reader);
            let v = match read_value(mode, value, reader) {
                Ok(v) => v,
                Err(e) => {
                    return Err(e);
                },
            };
            proof {
                let n = (s.len() - mid.len()) as nat;
                let m = (mid.len() - unread(*reader).len()) as nat;
                lemma_advanced_twice(s, mid, unread(*reader), n, m);
            }
            Ok((k, v))
        },
        _ => Err(EncoderError::InsufficientData),
    }
}

/// Reads `count` entries of a mapping.
fn read_pairs(mode: Mode, shape: &Shape, count: usize, reader: &mut Bytes) -> (r: Result<
    Vec<(Value, Value)>,
    EncoderError,
>)
    requires
        shape is Mapping,
    ensures
        match parse_pairs(mode, *shape, unread(*old(reader)), count as nat) {
            Ok((items, n)) => r matches Ok(v) && pair_data(v@) == items && advanced(
                unread(*old(reader)),
                unread(*final(reader)),
                n,
            ),
            Err(f) => r matches Err(e) && e@ == f,
        },
    decreases shape, 0nat, 1nat,
{
    let ghost start = unread(*reader);
    let ghost whole = parse_pairs(mode, *shape, start, count as nat);
    let mut out: Vec<(Value, Value)> = Vec::new();
    proof {
        lemma_advanced_none(start);
        match whole {
            Ok((items, n)) => {
                assert(Seq::<(Datum, Datum)>::empty() + items =~= items);
            },
            Err(_) => {},
        }
        assert(pair_data(out@) =~= Seq::<(Datum, Datum)>::empty());
    }
    let mut i: usize = 0;
    let ghost mut used: nat = 0;
    while i < count
        invariant
            shape is Mapping,
            i <= count,
            out@.len() == i,
            start == unread(*old(reader)),
            whole == parse_pairs(mode, *shape, start, count as nat),
            advanced(start, unread(*reader), used),
            whole == prepend(
                pair_data(out@),
                used,
                parse_pairs(mode, *shape, unread(*reader), (count - i) as nat),
            ),
        decreases count - i,
    {
        let ghost cur = unread(*reader);
        let ghost front = pair_data(out@);
        let entry = match read_pair(mode, shape, reader) {
            Ok(entry) => entry,
            Err(e) => {
                return Err(e);
            },
        };
        out.push(entry);
        proof {
            match parse_pair(mode, *shape, cur) {
                Ok((pair, n)) => {
                    lemma_advanced_twice(start, cur, unread(*reader), used, n);
                    assert(pair_data(out@) =~= front.push(pair));
                    match parse_pairs(mode, *shape, tail(cur, n), (count - i - 1) as nat) {
                        Ok((more, m)) => {
                            assert(front + (seq![pair] + more) =~= front.push(pair) + more);
                        },
                        Err(_) => {},
                    }
                    used = used + n;
                },
                Err(_) => {},
            }
        }
        i += 1;
    }
    proof {
        assert(pair_data(out@) + Seq::<(Datum, Datum)>::empty() =~= pair_data(out@));
    }
    Ok(out)
}

/// `used` bytes consumed so far, then what `next` yields.
pub open spec fn later<T>(used: nat, next: Result<(T, nat), Fault>) -> Result<(T, nat), Fault> {
    match next {
        Ok((x, n)) => Ok((x, used + n)),
        Err(f) => Err(f),
    }
}

/// The name of the variant, if the body is a variant's.
pub open spec fn variant_name(variant: Option<&String>) -> Option<Seq<char>> {
    match variant {
        Some(name) => Some(name@),
        None => None,
    }
}

/// The failure for a required field that the wire had nothing for.
fn missing_error(owner: &String, variant: Option<&String>, field: &String) -> (e: EncoderError)
    ensures
        e@ == missing_fault(owner@, variant_name(variant), field@),
{
    match variant {
        None => EncoderError::StructDecode(
            StructDecodeError::MissingRequiredField {
                field: field.clone(),
                struct_name: owner.clone(),
            },
        ),
        Some(name) => EncoderError::EnumDecode(
            EnumDecodeError::MissingRequiredField {
                field: field.clone(),
                enum_name: owner.clone(),
                variant_name: name.clone(),
            },
        ),
    }
}

/// The failure for a positional body written with another number of fields.
fn count_error(owner: &String, variant: Option<&String>, expected: usize, actual: usize) -> (e:
    EncoderError)
    ensures
        e@ == count_fault(owner@, variant_name(variant), expected, actual),
{
    match variant {
        None => EncoderError::StructDecode(
            StructDecodeError::FieldCountMismatch { struct_name: owner.clone(), expected, actual },
        ),
        Some(name) => EncoderError::EnumDecode(
            EnumDecodeError::FieldCountMismatch {
                enum_name: owner.clone(),
                variant_name: name.clone(),
                expected,
                actual,
            },
        ),
    }
}

/// The failure for packed data written for another layout.
fn hash_error(owner: &String, variant: Option<&String>, expected: u64, actual: u64) -> (e:
    EncoderError)
    ensures
        e@ == hash_fault(owner@, variant_name(variant), expected, actual),
{
    match variant {
        None => EncoderError::StructDecode(
            StructDecodeError::StructureHashMismatch {
                struct_name: owner.clone(),
                expected,
                actual,
            },
        ),
        Some(name) => EncoderError::EnumDecode(
            EnumDecodeError::StructureHashMismatch {
                enum_name: owner.clone(),
                variant_name: name.clone(),
                expected,
                actual,
            },
        ),
    }
}

/// The index of the first field that is read and has the identifier `id`;
/// the number of fields if there is none.
fn find_field_index(fields: &Vec<FieldDef>, id: u64) -> (r: usize)
    ensures
        r == find_field(fields@, id, 0),
        r <= fields@.len(),
{
    let mut i: usize = 0;
    while i < fields.len()
        invariant
            i <= fields.len(),
            find_field(fields@, id, 0) == find_field(fields@, id, i as nat),
        decreases fields.len() - i,
    {
        if !fields[i].attrs.skip_decode && fields[i].attrs.id == id {
            return i;
        }
        i += 1;
    }
    i
}

/// The index of the first variant with the identifier `id` and, in tagged
/// mode, the form that `tag` announces; the number of variants if there is
/// none.
fn find_variant_index(mode: Mode, variants: &Vec<VariantDef>, id: u64, tag: u8) -> (r: usize)
    ensures
        r == find_variant(mode, variants@, id, tag, 0),
        r <= variants@.len(),
{
    let mut i: usize = 0;
    while i < variants.len()
        invariant
            i <= variants.len(),
            find_variant(mode, variants@, id, tag, 0) == find_variant(
                mode,
                variants@,
                id,
                tag,
                i as nat,
            ),
        decreases variants.len() - i,
    {
        if variants[i].id == id {
            let form = match &variants[i].fields {
                Fields::Unit => TAG_ENUM,
                Fields::Named(_) => TAG_ENUM_NAMED,
                Fields::Unnamed(_) => TAG_ENUM_UNNAMED,
            };
            if mode == Mode::Packed || form == tag {
                return i;
            }
        }
        i += 1;
    }
    i
}

/// Whether a field must be on the wire.
fn is_required(field: &FieldDef) -> (r: bool)
    ensures
        r == required(*field),
{
    let optional = match &field.shape {
        Shape::Optional(_) => true,
        _ => false,
    };
    !field.attrs.skip_decode && !optional && !field.attrs.default && !field.attrs.skip_default
}

/// The index of the first required field that nothing was decoded for; the
/// number of fields if there is none.
fn first_missing_index(fields: &Vec<FieldDef>, slots: &Vec<Option<Value>>) -> (r: usize)
    requires
        slots@.len() == fields@.len(),
    ensures
        r == first_missing(fields@, slot_data(slots@), 0),
        r <= fields@.len(),
{
    let mut i: usize = 0;
    while i < fields.len()
        invariant
            i <= fields.len(),
            slots@.len() == fields@.len(),
            first_missing(fields@, slot_data(slots@), 0) == first_missing(
                fields@,
                slot_data(slots@),
                i as nat,
            ),
        decreases fields.len() - i,
    {
        if is_required(&fields[i]) && slots[i].is_none() {
            return i;
        }
        i += 1;
    }
    i
}

/// The values of all named fields from what was decoded for each.
fn assemble_fields(fields: &Vec<FieldDef>, slots: Vec<Option<Value>>) -> (r: Vec<Value>)
    requires
        slots@.len() == fields@.len(),
    ensures
        data(r@) == assemble(fields@, slot_data(slots@)),
{
    let mut slots = slots;
    let ghost given = slots@;
    let mut out: Vec<Value> = Vec::new();
    let mut i: usize = 0;
    while i < fields.len()
        invariant
            i <= fields.len(),
            slots@.len() == fields@.len(),
            given.len() == fields@.len(),
            out@.len() == i,
            forall|j: int| i <= j < slots@.len() ==> slots@[j] == given[j],
            forall|j: int|
                0 <= j < i ==> (#[trigger] out@[j])@ == field_value(
                    fields@[j],
                    slot_data(given)[j],
                ),
        decreases fields.len() - i,
    {
        let slot = slots[i].take();
        let field = &fields[i];
        let value = if field.attrs.skip_decode {
            zero_value(&field.shape)
        } else {
            match &field.shape {
                Shape::Optional(_) => match slot {
                    Some(v) => Value::Maybe(Some(Box::new(v))),
                    None => Value::Maybe(None),
                },
                _ => match slot {
                    Some(v) => v,
                    None => zero_value(&field.shape),
                },
            }
        };
        out.push(value);
        i += 1;
    }
    proof {
        assert(data(out@) =~= assemble(fields@, slot_data(given)));
    }
    out
}

/// What reading the value after the identifier `id` must have done: decoded
/// it into the slot of the field that has the identifier, or skipped it if
/// no field that is read has.
pub open spec fn took_field(
    fields: Seq<FieldDef>,
    id: u64,
    before: Seq<u8>,
    after: Seq<u8>,
    slots_before: Seq<Option<Value>>,
    slots_after: Seq<Option<Value>>,
    r: Result<(), EncoderError>,
) -> bool {
    match parse_entry(fields, id, before) {
        Ok((entry, m)) => r is Ok && slots_after.len() == slots_before.len() && slot_data(
            slots_after,
        ) == store(slot_data(slots_before), entry) && advanced(before, after, m),
        Err(f) => r matches Err(e) && e@ == f,
    }
}

/// Reads the value that follows the identifier `id`: into the slot of the
/// field that has the identifier, or past it if no field that is read has.
fn read_field(fields: &Vec<FieldDef>, id: u64, slots: &mut Vec<Option<Value>>, reader: &mut Bytes)
    -> (r: Result<(), EncoderError>)
    requires
        old(slots)@.len() == fields@.len(),
    ensures
        took_field(
            fields@,
            id,
            unread(*old(reader)),
            unread(*final(reader)),
            old(slots)@,
            final(slots)@,
            r,
        ),
    decreases fields, 0nat,
{
    proof {
        lemma_parse_entry(fields@, id, unread(*reader));
    }
    let found = find_field_index(fields, id);
    if found < fields.len() {
        assert(decreases_to!(fields => fields[found as int]));
        let payload: &Shape = match &fields[found].shape {
            Shape::Optional(inner) => inner,
            other => other,
        };
        let value = match read_value(Mode::Tagged, payload, reader) {
            Ok(value) => value,
            Err(e) => {
                return Err(e);
            },
        };
        let ghost before = slot_data(slots@);
        slots[found] = Some(value);
        proof {
            assert(slot_data(slots@) =~= before.update(found as int, Some(value@)));
        }
        Ok(())
    } else {
        skip_value(reader)
    }
}

/// Reads identified fields up to the terminator, in tagged mode: for each
/// declared field, what was decoded for it.
fn read_named(fields: &Vec<FieldDef>, reader: &mut Bytes) -> (r: Result<
    Vec<Option<Value>>,
    EncoderError,
>)
    ensures
        match parse_named(fields@, unread(*old(reader)), empty_slots(fields@.len())) {
            Ok((slots, n)) => r matches Ok(v) && slot_data(v@) == slots && v@.len()
                == fields@.len() && advanced(unread(*old(reader)), unread(*final(reader)), n),
            Err(f) => r matches Err(e) && e@ == f,
        },
    decreases fields, 1nat,
{
    let ghost start = unread(*reader);
    let ghost whole = parse_named(fields@, start, empty_slots(fields@.len()));
    let mut slots: Vec<Option<Value>> = Vec::new();
    let mut k: usize = 0;
    while k < fields.len()
        invariant
            k <= fields.len(),
            slots@.len() == k,
            forall|j: int| 0 <= j < k ==> slots@[j] is None,
        decreases fields.len() - k,
    {
        slots.push(None);
        k += 1;
    }
    let ghost mut used: nat = 0;
    proof {
        lemma_advanced_none(start);
        assert(slot_data(slots@) =~= empty_slots(fields@.len()));
    }
    loop
        invariant
            start == unread(*old(reader)),
            whole == parse_named(fields@, start, empty_slots(fields@.len())),
            slots@.len() == fields@.len(),
            advanced(start, unread(*reader), used),
            whole == later(used, parse_named(fields@, unread(*reader), slot_data(slots@))),
        decreases unread(*reader).len(),
    {
        let ghost cur = unread(*reader);
        let ghost cur_slots = slots@;
        let id = match read_field_id_optimized(reader) {
            Ok(id) => id,
            Err(e) => {
                return Err(e);
            },
        };
        let ghost rest = unread(*reader);
        let ghost n = (cur.len() - rest.len()) as nat;
        proof {
            lemma_advanced_twice(start, cur, rest, used, n);
        }
        if id == 0 {
            return Ok(slots);
        }
        match read_field(fields, id, &mut slots, reader) {
            Ok(()) => {},
            Err(e) => {
                return Err(e);
            },
        }
        proof {
            let m = (rest.len() - unread(*reader).len()) as nat;
            lemma_advanced_twice(start, rest, unread(*reader), used + n, m);
            used = used + n + m;
        }
    }
}

/// Reads the body of a struct or variant: what follows its tag and
/// identifier.
fn read_body(
    mode: Mode,
    fields: &Fields,
    owner: &String,
    variant: Option<&String>,
    hash: u64,
    reader: &mut Bytes,
) -> (r: Result<Vec<Value>, EncoderError>)
    ensures
        read_many(
            parse_body(mode, *fields, unread(*old(reader)), owner@, variant_name(variant), hash),
            unread(*old(reader)),
            unread(*final(reader)),
            r,
        ),
    decreases fields, 1nat,
{
    let ghost s = unread(*reader);
    match fields {
        Fields::Unit => {
            proof {
                lemma_advanced_none(s);
            }
            let out: Vec<Value> = Vec::new();
            assert(data(out@) =~= Seq::<Datum>::empty());
            Ok(out)
        },
        Fields::Named(list) => {
            if mode == Mode::Tagged {
                let slots = match read_named(list, reader) {
                    Ok(slots) => slots,
                    Err(e) => {
                        return Err(e);
                    },
                };
                let missing = first_missing_index(list, &slots);
                if missing < list.len() {
                    return Err(missing_error(owner, variant, &list[missing].name));
                }
                Ok(assemble_fields(list, slots))
            } else {
                if remaining(reader) < 8 {
                    return Err(EncoderError::InsufficientData);
                }
                let received = get_u64_le(reader);
                if received != hash {
                    return Err(hash_error(owner, variant, hash, received));
                }
                let ghost rest = unread(*reader);
                let r = read_fields(mode, list, reader);
                proof {
                    match parse_fields(mode, list@, rest, 0) {
                        Ok((_, n)) => lemma_advanced_twice(s, rest, unread(*reader), 8, n),
                        Err(_) => {},
                    }
                }
                r
            }
        },
        Fields::Unnamed(list) => {
            let count = match read_count(reader) {
                Ok(count) => count,
                Err(e) => {
                    return Err(e);
                },
            };
            if count != list.len() {
                return Err(count_error(owner, variant, list.len(), count));
            }
            let ghost rest = unread(*reader);
            let ghost lead = (s.len() - rest.len()) as nat;
            let r = read_fields(mode, list, reader);
            proof {
                match parse_fields(mode, list@, rest, 0) {
                    Ok((_, n)) => lemma_advanced_twice(s, rest, unread(*reader), lead, n),
                    Err(_) => {},
                }
            }
            r
        },
    }
}

/// Reads a struct.
fn read_struct(mode: Mode, def: &StructDef, reader: &mut Bytes) -> (r: Result<Value, EncoderError>)
    ensures
        read_one(
            parse(mode, Shape::Struct(Box::new(*def)), unread(*old(reader))),
            unread(*old(reader)),
            unread(*final(reader)),
            r,
        ),
    decreases def, 0nat,
{
    let ghost s = unread(*reader);
    if mode == Mode::Packed {
        let hash = match &def.fields {
            Fields::Named(_) => struct_structure_hash(def),
            _ => 0,
        };
        proof {
            assert(parse_body(mode, def.fields, s, def.name@, None, hash) == parse_body(
                mode,
                def.fields,
                s,
                def.name@,
                None,
                struct_hash(*def),
            ));
        }
        match read_body(mode, &def.fields, &def.name, None, hash, reader) {
            Ok(items) => {
                proof {
                    lemma_view_items(items);
                }
                Ok(Value::Record(items))
            },
            Err(e) => Err(e),
        }
    } else {
        if remaining(reader) == 0 {
            return Err(EncoderError::InsufficientData);
        }
        let tag = get_u8(reader);
        let expected = match &def.fields {
            Fields::Unit => TAG_STRUCT_UNIT,
            Fields::Named(_) => TAG_STRUCT_NAMED,
            Fields::Unnamed(_) => TAG_STRUCT_UNNAMED,
        };
        if tag != expected {
            return Err(
                EncoderError::StructDecode(StructDecodeError::InvalidTag { expected, actual: tag }),
            );
        }
        let ghost rest = unread(*reader);
        match read_body(mode, &def.fields, &def.name, None, 0, reader) {
            Ok(items) => {
                proof {
                    lemma_view_items(items);
                    match parse_body(mode, def.fields, rest, def.name@, None, 0) {
                        Ok((_, n)) => lemma_advanced_twice(s, rest, unread(*reader), 1, n),
                        Err(_) => {},
                    }
                }
                Ok(Value::Record(items))
            },
            Err(e) => Err(e),
        }
    }
}

/// Reads an enum variant.
fn read_enum(mode: Mode, def: &EnumDef, reader: &mut Bytes) -> (r: Result<Value, EncoderError>)
    ensures
        read_one(
            parse(mode, Shape::Enum(Box::new(*def)), unread(*old(reader))),
            unread(*old(reader)),
            unread(*final(reader)),
            r,
        ),
    decreases def, 0nat,
{
    let ghost s = unread(*reader);
    let mut tag: u8 = 0;
    if mode == Mode::Tagged {
        if remaining(reader) == 0 {
            return Err(EncoderError::InsufficientData);
        }
        tag = get_u8(reader);
        if tag != TAG_ENUM && tag != TAG_ENUM_NAMED && tag != TAG_ENUM_UNNAMED {
            return Err(
                EncoderError::EnumDecode(
                    EnumDecodeError::UnknownTag { tag, enum_name: def.name.clone() },
                ),
            );
        }
    }
    let ghost after_tag = unread(*reader);
    let ghost lead: nat = if mode == Mode::Tagged {
        1
    } else {
        0
    };
    proof {
        if mode == Mode::Packed {
            lemma_advanced_none(s);
        }
    }
    let id = match read_field_id_optimized(reader) {
        Ok(id) => id,
        Err(e) => {
            return Err(e);
        },
    };
    let ghost rest = unread(*reader);
    let ghost n = (after_tag.len() - rest.len()) as nat;
    proof {
        lemma_advanced_twice(s, after_tag, rest, lead, n);
    }
    let index = find_variant_index(mode, &def.variants, id, tag);
    if index >= def.variants.len() {
        return Err(
            EncoderError::EnumDecode(
                EnumDecodeError::UnknownVariantId { variant_id: id, enum_name: def.name.clone() },
            ),
        );
    }
    assert(decreases_to!(def.variants => def.variants[index as int]));
    let variant = &def.variants[index];
    let hash = if mode == Mode::Packed {
        match &variant.fields {
            Fields::Named(_) => enum_structure_hash(def),
            _ => 0,
        }
    } else {
        0
    };
    proof {
        assert(parse_body(
            mode,
            variant.fields,
            rest,
            def.name@,
            Some(variant.name@),
            hash,
        ) == parse_body(mode, variant.fields, rest, def.name@, Some(variant.name@), enum_hash(*def)));
    }
    match read_body(mode, &variant.fields, &def.name, Some(&variant.name), hash, reader) {
        Ok(items) => {
            proof {
                lemma_view_items(items);
                match parse_body(
                    mode,
                    variant.fields,
                    rest,
                    def.name@,
                    Some(variant.name@),
                    hash,
                ) {
                    Ok((_, m)) => lemma_advanced_twice(s, rest, unread(*reader), lead + n, m),
                    Err(_) => {},
                }
            }
            Ok(Value::Variant(index, items))
        },
        Err(e) => Err(e),
    }
}

/// Reads a sequence: the length prefix, which must announce `expected`
/// elements if that is given, and the elements.
fn read_sequence(mode: Mode, inner: &Shape, expected: Option<usize>, reader: &mut Bytes) -> (r:
    Result<Value, EncoderError>)
    ensures
        read_one(
            match parse_seq_len(unread(*old(reader))) {
                Err(f) => Err(f),
                Ok((count, n)) => if expected matches Some(len) && count != len {
                    Err(Fault::Decode)
                } else {
                    finish(
                        n,
                        parse_repeat(mode, *inner, tail(unread(*old(reader)), n), count),
                        |items: Seq<Datum>| Datum::List(items),
                    )
                },
            },
            unread(*old(reader)),
            unread(*final(reader)),
            r,
        ),
    decreases inner, 3nat,
{
    let ghost s = unread(*reader);
    if remaining(reader) == 0 {
        return Err(EncoderError::InsufficientData);
    }
    let tag = get_u8(reader);
    let ghost after_tag = unread(*reader);
    let count = match decode_vec_length(tag, reader) {
        Ok(count) => count,
        Err(e) => {
            return Err(e);
        },
    };
    let ghost rest = unread(*reader);
    let ghost lead = (s.len() - rest.len()) as nat;
    proof {
        lemma_advanced_twice(s, after_tag, rest, 1, (lead - 1) as nat);
    }
    match expected {
        Some(len) => {
            if count != len {
                return Err(
                    EncoderError::Decode(
                        with_number("Array length mismatch: got ", count as u128),
                    ),
                );
            }
        },
        None => {},
    }
    match read_repeat(mode, inner, count, reader) {
        Ok(items) => {
            proof {
                lemma_view_items(items);
                match parse_repeat(mode, *inner, rest, count as nat) {
                    Ok((_, m)) => lemma_advanced_twice(s, rest, unread(*reader), lead, m),
                    Err(_) => {},
                }
            }
            Ok(Value::List(items))
        },
        Err(e) => Err(e),
    }
}

/// Reads a value of a shape in a mode.
pub(crate) fn read_value(mode: Mode, shape: &Shape, reader: &mut Bytes) -> (r: Result<
    Value,
    EncoderError,
>)
    ensures
        read_one(
            parse(mode, *shape, unread(*old(reader))),
            unread(*old(reader)),
            unread(*final(reader)),
            r,
        ),
    decreases shape, 1nat,
{
    let ghost s = unread(*reader);
    match shape {
        Shape::Bool => {
            let r = if mode == Mode::Tagged {
                bool::decode(reader)
            } else {
                bool::unpack(reader)
            };
            match r {
                Ok(b) => Ok(Value::Bool(b)),
                Err(e) => Err(e),
            }
        },
        Shape::Char => match char::decode(reader) {
            Ok(c) => Ok(Value::Char(c)),
            Err(e) => Err(e),
        },
        Shape::U8 => match u8::decode(reader) {
            Ok(v) => Ok(Value::Unsigned(v as u128)),
            Err(e) => Err(e),
        },
        Shape::U16 => match u16::decode(reader) {
            Ok(v) => Ok(Value::Unsigned(v as u128)),
            Err(e) => Err(e),
        },
        Shape::U32 => match u32::decode(reader) {
            Ok(v) => Ok(Value::Unsigned(v as u128)),
            Err(e) => Err(e),
        },
        Shape::U64 => match u64::decode(reader) {
            Ok(v) => Ok(Value::Unsigned(v as u128)),
            Err(e) => Err(e),
        },
        Shape::U128 => match u128::decode(reader) {
            Ok(v) => Ok(Value::Unsigned(v)),
            Err(e) => Err(e),
        },
        Shape::Usize => match usize::decode(reader) {
            Ok(v) => Ok(Value::Unsigned(v as u128)),
            Err(e) => Err(e),
        },
        Shape::I8 => match i8::decode(reader) {
            Ok(v) => Ok(Value::Signed(v as i128)),
            Err(e) => Err(e),
        },
        Shape::I16 => match i16::decode(reader) {
            Ok(v) => Ok(Value::Signed(v as i128)),
            Err(e) => Err(e),
        },
        Shape::I32 => match i32::decode(reader) {
            Ok(v) => Ok(Value::Signed(v as i128)),
            Err(e) => Err(e),
        },
        Shape::I64 => match i64::decode(reader) {
            Ok(v) => Ok(Value::Signed(v as i128)),
            Err(e) => Err(e),
        },
        Shape::I128 => match i128::decode(reader) {
            Ok(v) => Ok(Value::Signed(v)),
            Err(e) => Err(e),
        },
        Shape::Isize => match isize::decode(reader) {
            Ok(v) => Ok(Value::Signed(v as i128)),
            Err(e) => Err(e),
        },
        Shape::F32 => {
            let r = if mode == Mode::Tagged {
                Float32::decode(reader)
            } else {
                Float32::unpack(reader)
            };
            match r {
                Ok(Float32::Single(bits)) => Ok(Value::F32(bits)),
                Ok(Float32::Double(bits)) => Ok(Value::F64(bits)),
                Err(e) => Err(e),
            }
        },
        Shape::F64 => {
            let r = if mode == Mode::Tagged {
                Float64::decode(reader)
            } else {
                Float64::unpack(reader)
            };
            match r {
                Ok(v) => Ok(Value::F64(v.bits)),
                Err(e) => Err(e),
            }
        },
        Shape::Text => match String::decode(reader) {
            Ok(text) => Ok(Value::Text(text)),
            Err(e) => Err(e),
        },
        Shape::Blob => match read_blob(reader) {
            Ok(bytes) => Ok(Value::Blob(bytes)),
            Err(e) => Err(e),
        },
        Shape::Optional(inner) => {
            if remaining(reader) == 0 {
                return Err(EncoderError::InsufficientData);
            }
            let tag = get_u8(reader);
            if tag == TAG_NONE {
                Ok(Value::Maybe(None))
            } else if tag == TAG_SOME {
                if mode == Mode::Tagged && remaining(reader) == 0 {
                    return Err(EncoderError::InsufficientData);
                }
                let ghost rest = unread(*reader);
                match read_value(mode, inner, reader) {
                    Ok(value) => {
                        proof {
                            match parse(mode, **inner, rest) {
                                Ok((_, n)) => lemma_advanced_twice(
                                    s,
                                    rest,
                                    unread(*reader),
                                    1,
                                    n,
                                ),
                                Err(_) => {},
                            }
                        }
                        Ok(Value::Maybe(Some(Box::new(value))))
                    },
                    Err(e) => Err(e),
                }
            } else {
                Err(
                    EncoderError::Decode(
                        with_number("Expected Option tag (128 or 129), got ", tag as u128),
                    ),
                )
            }
        },
        Shape::Vector(inner) => {
            if is_byte_shape(inner) {
                match <Vec<u8>>::decode(reader) {
                    Ok(bytes) => Ok(Value::Blob(bytes)),
                    Err(e) => Err(e),
                }
            } else {
                read_sequence(mode, inner, None, reader)
            }
        },
        Shape::Array(inner, len) => read_sequence(mode, inner, Some(*len), reader),
        Shape::Tuple(shapes) => {
            let count = match read_counted(TAG_TUPLE, reader) {
                Ok(count) => count,
                Err(e) => {
                    return Err(e);
                },
            };
            if count != shapes.len() {
                return Err(
                    EncoderError::Decode(
                        with_number("Unexpected tuple arity: ", count as u128),
                    ),
                );
            }
            let ghost rest = unread(*reader);
            let ghost lead = (s.len() - rest.len()) as nat;
            match read_each(mode, shapes, reader) {
                Ok(items) => {
                    proof {
                        lemma_view_items(items);
                        match parse_each(mode, shapes@, rest, 0) {
                            Ok((_, m)) => lemma_advanced_twice(s, rest, unread(*reader), lead, m),
                            Err(_) => {},
                        }
                    }
                    Ok(Value::Tuple(items))
                },
                Err(e) => Err(e),
            }
        },
        Shape::Mapping(_, _) => {
            let count = match read_counted(TAG_MAP, reader) {
                Ok(count) => count,
                Err(e) => {
                    return Err(e);
                },
            };
            let ghost rest = unread(*reader);
            let ghost lead = (s.len() - rest.len()) as nat;
            match read_pairs(mode, shape, count, reader) {
                Ok(items) => {
                    proof {
                        lemma_view_pairs(items);
                        match parse_pairs(mode, *shape, rest, count as nat) {
                            Ok((_, m)) => lemma_advanced_twice(s, rest, unread(*reader), lead, m),
                            Err(_) => {},
                        }
                    }
                    Ok(Value::Pairs(items))
                },
                Err(e) => Err(e),
            }
        },
        Shape::Struct(def) => read_struct(mode, def, reader),
        Shape::Enum(def) => read_enum(mode, def, reader),
        Shape::DateTime => match read_datetime(mode, reader) {
            Ok((seconds, nanos)) => Ok(Value::DateTime { seconds, nanos }),
            Err(e) => Err(e),
        },
        Shape::Date => match read_date(reader) {
            Ok(days) => Ok(Value::Date { days }),
            Err(e) => Err(e),
        },
        Shape::Time => match read_time(reader) {
            Ok((seconds, nanos)) => Ok(Value::Time { seconds, nanos }),
            Err(e) => Err(e),
        },
        Shape::Decimal => match read_decimal(reader) {
            Ok((mantissa, scale)) => Ok(Value::Decimal { mantissa, scale }),
            Err(e) => Err(e),
        },
        Shape::Uuid => match read_uuid(mode, reader) {
            Ok(id) => Ok(Value::Uuid(id)),
            Err(e) => Err(e),
        },
        Shape::Json => match read_json(reader) {
            Ok(tree) => Ok(Value::Json(tree)),
            Err(e) => Err(e),
        },
    }
}

} // verus!
