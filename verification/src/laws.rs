//! What holds of the format as a whole: what is written is read back, what
//! is written can be skipped, and structs written under one declaration are
//! read under another.

use vstd::prelude::*;
use vstd::utf8::encode_utf8;
use crate::adapter::{
    date_wire, datetime_wire, decimal_wire, pair_wire, parse_date, parse_datetime, parse_decimal,
    parse_number_pair, parse_time, parse_uuid, time_wire, uuid_wire, valid_days, valid_decimal,
    valid_time, valid_timestamp,
};
use crate::error::Fault;
use crate::json::{
    json_conforms, json_number_wire, json_wire, json_wire_all, json_wire_entries, parse_json,
    parse_json_all, parse_json_entries, parse_json_number, JsonDatum, JsonNumber,
};
use crate::le::{le_bytes, lemma_le_bytes_len, lemma_le_value_of_bytes, lemma_radix_values};
use crate::codec::{sound, Shaped};
use crate::format::{
    assemble, empty_slots, field_value, find_field, find_variant, first_missing, hash_fault,
    missing_fault,
    parse_body, lemma_parse_entry, lemma_parse_pair, parse, parse_pair, parse_each, parse_fields,
    parse_named, parse_pairs, parse_repeat, payload_shape, required,
    conform_all, conform_each, conform_fields, conform_pairs, conforms, omitted,
    enum_tag, struct_tag, wire, wire_all, wire_body, wire_each, wire_fields, wire_named,
    wire_named_field, wire_pairs,
};
use crate::model::{Datum, EnumDef, FieldDef, Fields, Mode, Shape, StructDef, VariantDef};
use crate::schema::{
    declaration_fault, defect_at, each_fault, enabled, enum_hash, field_id_fault, field_ids,
    field_ids_valid, fields_fault, first_defect, first_with_id, is_declaration, listed_fault,
    shape_fault, struct_hash, valid, valid_fields, variant_id_fault, variant_ids,
    variant_ids_valid, variants_fault, SchemaFault,
};
use crate::skip::{after, skip_entries, skip_fields, skip_len, skip_many, skip_pairs};
use crate::spec::{
    blob_wire, bool_wire, char_wire, float_wire, id_wire, is_scalar, parse_blob, parse_bool,
    parse_byte_vector, parse_char, parse_counted, parse_f32, parse_f64, parse_id, parse_seq_len,
    parse_text, seq_len_wire, tail, text_wire, word_bits,
};
use crate::tag::{
    TAG_CHRONO_DATETIME, TAG_DECIMAL, TAG_F32, TAG_F64, TAG_JSON_ARRAY, TAG_JSON_NUMBER,
    TAG_JSON_OBJECT, TAG_MAP, TAG_STRUCT_NAMED, TAG_TUPLE,
};
use crate::varint::{int_max, int_wire, parse_int, parse_uint, uint_max, uint_wire};

verus! {

/// The front and the back of a concatenation.
pub proof fn lemma_concat(a: Seq<u8>, b: Seq<u8>)
    ensures
        (a + b).len() == a.len() + b.len(),
        (a + b).take(a.len() as int) == a,
        (a + b).skip(a.len() as int) == b,
        tail(a + b, a.len()) == b,
        forall|i: int| 0 <= i < a.len() ==> (a + b)[i] == a[i],
{
    assert((a + b).take(a.len() as int) =~= a);
    assert((a + b).skip(a.len() as int) =~= b);
}

/// Concatenation does not care how it is grouped.
pub proof fn lemma_concat_assoc(a: Seq<u8>, b: Seq<u8>, c: Seq<u8>)
    ensures
        (a + b) + c == a + (b + c),
{
    assert((a + b) + c =~= a + (b + c));
}

/// The length of an encoded unsigned value.
pub open spec fn uint_wire_len(n: nat) -> nat {
    if n <= 127 {
        1
    } else if n <= 383 {
        2
    } else if n <= 0xFFFF {
        3
    } else if n <= 0xFFFF_FFFF {
        5
    } else if n <= 0xFFFF_FFFF_FFFF_FFFF {
        9
    } else {
        17
    }
}

/// An encoded unsigned value takes one byte up to 127, two up to 383, then
/// the marker and 2, 4, 8 or 16 bytes, whichever is the first to hold it.
pub proof fn lemma_uint_wire_len(n: nat)
    ensures
        uint_wire(n).len() == uint_wire_len(n),
        uint_wire(n).len() >= 1,
{
    lemma_le_bytes_len(n, 2);
    lemma_le_bytes_len(n, 4);
    lemma_le_bytes_len(n, 8);
    lemma_le_bytes_len(n, 16);
}

/// An unsigned value that fits a width is read back by a decoder of that
/// width, whatever follows it.
pub proof fn lemma_uint_round_trip(n: nat, bits: nat, rest: Seq<u8>)
    requires
        bits == 8 || bits == 16 || bits == 32 || bits == 64 || bits == 128,
        n <= uint_max(bits),
    ensures
        parse_uint(uint_wire(n) + rest, bits) == Ok::<(nat, nat), Fault>((n, uint_wire(n).len())),
{
    let w = uint_wire(n);
    let s = w + rest;
    lemma_uint_wire_len(n);
    lemma_concat(w, rest);
    lemma_radix_values();
    if n <= 127 {
    } else if n <= 383 {
        assert(s.skip(1)[0] == w[1]);
    } else {
        let width: nat = if n <= 0xFFFF {
            2
        } else if n <= 0xFFFF_FFFF {
            4
        } else if n <= 0xFFFF_FFFF_FFFF_FFFF {
            8
        } else {
            16
        };
        lemma_le_bytes_len(n, width);
        lemma_le_value_of_bytes(n, width);
        assert(s.skip(1).take(width as int) =~= le_bytes(n, width));
    }
}

/// A signed value that fits a width is read back by a decoder of that
/// width, whatever follows it.
pub proof fn lemma_int_round_trip(v: int, bits: nat, rest: Seq<u8>)
    requires
        bits == 8 || bits == 16 || bits == 32 || bits == 64 || bits == 128,
        -(int_max(bits) as int) - 1 <= v <= int_max(bits),
    ensures
        parse_int(int_wire(v) + rest, bits) == Ok::<(int, nat), Fault>((v, int_wire(v).len())),
{
    let w = int_wire(v);
    let s = w + rest;
    lemma_concat(w, rest);
    if v >= 0 {
        lemma_uint_wire_len(v as nat);
        lemma_uint_round_trip(v as nat, bits, rest);
    } else {
        let inv = (-(v + 1)) as nat;
        lemma_uint_wire_len(inv);
        lemma_uint_round_trip(inv, bits, rest);
        assert(s.skip(1) =~= uint_wire(inv) + rest);
    }
}

/// An identifier is read back, whatever follows it.
pub proof fn lemma_id_round_trip(id: u64, rest: Seq<u8>)
    ensures
        parse_id(id_wire(id) + rest) == Ok::<(u64, nat), Fault>((id, id_wire(id).len())),
        id_wire(id).len() >= 1,
{
    let w = id_wire(id);
    let s = w + rest;
    lemma_concat(w, rest);
    lemma_radix_values();
    if id > 250 {
        lemma_le_bytes_len(id as nat, 8);
        lemma_le_value_of_bytes(id as nat, 8);
        assert(s.subrange(1, 9) =~= le_bytes(id as nat, 8));
    }
}

/// A boolean is read back in either mode, whatever follows it.
pub proof fn lemma_bool_round_trip(mode: Mode, b: bool, rest: Seq<u8>)
    ensures
        parse_bool(mode, bool_wire(b) + rest) == Ok::<(bool, nat), Fault>((b, 1)),
        bool_wire(b).len() == 1,
{
}

/// A 32-bit float is read back by a decoder of 32-bit floats.
pub proof fn lemma_f32_round_trip(mode: Mode, bits: u32, rest: Seq<u8>)
    ensures
        parse_f32(mode, float_wire(mode, TAG_F32, bits as nat, 4) + rest) == Ok::<
            (Datum, nat),
            Fault,
        >((Datum::F32(bits), float_wire(mode, TAG_F32, bits as nat, 4).len())),
{
    let w = float_wire(mode, TAG_F32, bits as nat, 4);
    let s = w + rest;
    lemma_concat(w, rest);
    lemma_radix_values();
    lemma_le_bytes_len(bits as nat, 4);
    lemma_le_value_of_bytes(bits as nat, 4);
    if mode == Mode::Tagged {
        assert(s.subrange(1, 5) =~= le_bytes(bits as nat, 4));
    } else {
        assert(s.take(4) =~= le_bytes(bits as nat, 4));
    }
}

/// A 64-bit float is read back by a decoder of 64-bit floats, and in tagged
/// mode by a decoder of 32-bit floats as well.
pub proof fn lemma_f64_round_trip(mode: Mode, bits: u64, rest: Seq<u8>)
    ensures
        parse_f64(mode, float_wire(mode, TAG_F64, bits as nat, 8) + rest) == Ok::<
            (Datum, nat),
            Fault,
        >((Datum::F64(bits), float_wire(mode, TAG_F64, bits as nat, 8).len())),
        mode == Mode::Tagged ==> parse_f32(mode, float_wire(mode, TAG_F64, bits as nat, 8) + rest)
            == Ok::<(Datum, nat), Fault>(
            (Datum::F64(bits), float_wire(mode, TAG_F64, bits as nat, 8).len()),
        ),
{
    let w = float_wire(mode, TAG_F64, bits as nat, 8);
    let s = w + rest;
    lemma_concat(w, rest);
    lemma_radix_values();
    lemma_le_bytes_len(bits as nat, 8);
    lemma_le_value_of_bytes(bits as nat, 8);
    if mode == Mode::Tagged {
        assert(s.subrange(1, 9) =~= le_bytes(bits as nat, 8));
    } else {
        assert(s.take(8) =~= le_bytes(bits as nat, 8));
    }
}

/// A character is read back.
pub proof fn lemma_char_round_trip(c: char, rest: Seq<u8>)
    ensures
        parse_char(char_wire(c) + rest) == Ok::<(char, nat), Fault>((c, char_wire(c).len())),
{
    lemma_uint_round_trip(c as u32 as nat, 32, rest);
    assert(is_scalar(c as u32 as nat));
    assert((c as u32 as nat) as u32 as char == c);
}

/// The pointer-sized integers are 32 or 64 bits wide, and a length that
/// fits them is an unsigned value of that width.
pub proof fn lemma_word_bits()
    ensures
        word_bits() == 32 || word_bits() == 64,
        uint_max(word_bits()) == usize::MAX,
{
}

/// Text is read back, whatever follows it.
pub proof fn lemma_text_round_trip(chars: Seq<char>, rest: Seq<u8>)
    requires
        encode_utf8(chars).len() <= usize::MAX,
    ensures
        parse_text(text_wire(chars) + rest) == Ok::<(Seq<char>, nat), Fault>(
            (chars, text_wire(chars).len()),
        ),
        text_wire(chars).len() >= 1,
{
    let bytes = encode_utf8(chars);
    let w = text_wire(chars);
    let s = w + rest;
    lemma_concat(w, rest);
    lemma_word_bits();
    vstd::utf8::encode_utf8_valid_utf8(chars);
    vstd::utf8::encode_utf8_decode_utf8(chars);
    if bytes.len() <= 40 {
        let head = seq![(139 + bytes.len()) as u8];
        assert(w == head + bytes);
        assert(tail(s, 1).take(bytes.len() as int) =~= bytes);
    } else {
        let head = seq![180u8] + uint_wire(bytes.len());
        lemma_uint_wire_len(bytes.len());
        lemma_uint_round_trip(bytes.len(), word_bits(), bytes + rest);
        assert(s.skip(1) =~= uint_wire(bytes.len()) + (bytes + rest));
        assert(w == head + bytes);
        assert(tail(s, head.len()).take(bytes.len() as int) =~= bytes);
    }
}

/// Raw bytes are read back, as raw bytes and as a vector of bytes, whatever
/// follows them.
pub proof fn lemma_blob_round_trip(bytes: Seq<u8>, rest: Seq<u8>)
    requires
        bytes.len() <= usize::MAX,
    ensures
        parse_blob(blob_wire(bytes) + rest) == Ok::<(Seq<u8>, nat), Fault>(
            (bytes, blob_wire(bytes).len()),
        ),
        parse_byte_vector(blob_wire(bytes) + rest) == Ok::<(Seq<u8>, nat), Fault>(
            (bytes, blob_wire(bytes).len()),
        ),
        blob_wire(bytes).len() >= 1,
{
    let w = blob_wire(bytes);
    let s = w + rest;
    lemma_concat(w, rest);
    lemma_word_bits();
    let head = seq![181u8] + uint_wire(bytes.len());
    lemma_uint_wire_len(bytes.len());
    lemma_uint_round_trip(bytes.len(), word_bits(), bytes + rest);
    assert(s.skip(1) =~= uint_wire(bytes.len()) + (bytes + rest));
    assert(w == head + bytes);
    assert(tail(s, head.len()).take(bytes.len() as int) =~= bytes);
}

/// The length prefix of a sequence is read back, whatever follows it.
pub proof fn lemma_seq_len_round_trip(len: nat, rest: Seq<u8>)
    requires
        len <= usize::MAX,
    ensures
        parse_seq_len(seq_len_wire(len) + rest) == Ok::<(nat, nat), Fault>(
            (len, seq_len_wire(len).len()),
        ),
        seq_len_wire(len).len() >= 1,
{
    let w = seq_len_wire(len);
    let s = w + rest;
    lemma_concat(w, rest);
    lemma_word_bits();
    if len > 5 {
        lemma_uint_wire_len(len);
        lemma_uint_round_trip(len, word_bits(), rest);
        assert(s.skip(1) =~= uint_wire(len) + rest);
    }
}

/// A tag and a count are read back, whatever follows them.
pub proof fn lemma_counted_round_trip(tag: u8, len: nat, rest: Seq<u8>)
    requires
        len <= usize::MAX,
    ensures
        parse_counted(tag, (seq![tag] + uint_wire(len)) + rest) == Ok::<(nat, nat), Fault>(
            (len, 1 + uint_wire(len).len()),
        ),
{
    let w = seq![tag] + uint_wire(len);
    let s = w + rest;
    lemma_concat(w, rest);
    lemma_word_bits();
    lemma_uint_wire_len(len);
    lemma_uint_round_trip(len, word_bits(), rest);
    assert(s.skip(1) =~= uint_wire(len) + rest);
}

// ---------------------------------------------------------------------
// What is written can be skipped
// ---------------------------------------------------------------------
/// An encoded unsigned value can be skipped.
pub proof fn lemma_skip_uint(n: nat, rest: Seq<u8>)
    requires
        n <= uint_max(128),
    ensures
        skip_len(uint_wire(n) + rest) == Ok::<nat, Fault>(uint_wire(n).len()),
{
    let w = uint_wire(n);
    lemma_uint_wire_len(n);
    lemma_concat(w, rest);
    lemma_le_bytes_len(n, 2);
    lemma_le_bytes_len(n, 4);
    lemma_le_bytes_len(n, 8);
    lemma_le_bytes_len(n, 16);
}

/// Encoded text can be skipped.
pub proof fn lemma_skip_text(chars: Seq<char>, rest: Seq<u8>)
    requires
        encode_utf8(chars).len() <= usize::MAX,
    ensures
        skip_len(text_wire(chars) + rest) == Ok::<nat, Fault>(text_wire(chars).len()),
{
    let bytes = encode_utf8(chars);
    let w = text_wire(chars);
    let s = w + rest;
    lemma_concat(w, rest);
    lemma_word_bits();
    if bytes.len() <= 40 {
    } else {
        let head = seq![180u8] + uint_wire(bytes.len());
        lemma_uint_wire_len(bytes.len());
        lemma_uint_round_trip(bytes.len(), word_bits(), bytes + rest);
        assert(s.skip(1) =~= uint_wire(bytes.len()) + (bytes + rest));
        assert(w == head + bytes);
    }
}

/// Encoded raw bytes can be skipped.
pub proof fn lemma_skip_blob(bytes: Seq<u8>, rest: Seq<u8>)
    requires
        bytes.len() <= usize::MAX,
    ensures
        skip_len(blob_wire(bytes) + rest) == Ok::<nat, Fault>(blob_wire(bytes).len()),
{
    let w = blob_wire(bytes);
    let s = w + rest;
    lemma_concat(w, rest);
    lemma_word_bits();
    let head = seq![181u8] + uint_wire(bytes.len());
    lemma_uint_wire_len(bytes.len());
    lemma_uint_round_trip(bytes.len(), word_bits(), bytes + rest);
    assert(s.skip(1) =~= uint_wire(bytes.len()) + (bytes + rest));
    assert(w == head + bytes);
}

/// A tag that is followed by a count and then values: the count is read
/// back and the values start behind it.
proof fn lemma_counted_front(tag: u8, len: nat, body: Seq<u8>, rest: Seq<u8>)
    requires
        len <= usize::MAX,
    ensures
        ((seq![tag] + uint_wire(len) + body) + rest)[0] == tag,
        parse_uint(((seq![tag] + uint_wire(len) + body) + rest).skip(1), word_bits()) == Ok::<
            (nat, nat),
            Fault,
        >((len, uint_wire(len).len())),
        tail(((seq![tag] + uint_wire(len) + body) + rest).skip(1), uint_wire(len).len()) == body
            + rest,
        (seq![tag] + uint_wire(len) + body).len() == 1 + uint_wire(len).len() + body.len(),
{
    let s = (seq![tag] + uint_wire(len) + body) + rest;
    lemma_word_bits();
    lemma_uint_wire_len(len);
    lemma_uint_round_trip(len, word_bits(), body + rest);
    assert(s.skip(1) =~= uint_wire(len) + (body + rest));
    lemma_concat(uint_wire(len), body + rest);
}

/// Values of one shape written in a row can be skipped one by one.
pub proof fn lemma_skip_all(shape: Shape, items: Seq<Datum>, from: nat, rest: Seq<u8>)
    requires
        from <= items.len(),
        conform_all(Mode::Tagged, shape, items, from),
        valid(Mode::Tagged, shape),
    ensures
        skip_many(
            wire_all(Mode::Tagged, shape, items, from) + rest,
            (items.len() - from) as nat,
        ) == Ok::<nat, Fault>(wire_all(Mode::Tagged, shape, items, from).len()),
    decreases items, 0nat, items.len() - from,
{
    if from < items.len() {
        let item = wire(Mode::Tagged, shape, items[from as int]);
        let more = wire_all(Mode::Tagged, shape, items, from + 1);
        lemma_concat_assoc(item, more, rest);
        lemma_skip_wire(shape, items[from as int], more + rest);
        lemma_concat(item, more + rest);
        lemma_skip_all(shape, items, from + 1, rest);
    } else {
        assert(Seq::<u8>::empty() + rest =~= rest);
    }
}

/// The elements of a tuple written in a row can be skipped one by one.
pub proof fn lemma_skip_each(shapes: Seq<Shape>, items: Seq<Datum>, from: nat, rest: Seq<u8>)
    requires
        from <= items.len(),
        items.len() == shapes.len(),
        conform_each(Mode::Tagged, shapes, items, from),
        forall|i: int| 0 <= i < shapes.len() ==> valid(Mode::Tagged, #[trigger] shapes[i]),
    ensures
        skip_many(
            wire_each(Mode::Tagged, shapes, items, from) + rest,
            (items.len() - from) as nat,
        ) == Ok::<nat, Fault>(wire_each(Mode::Tagged, shapes, items, from).len()),
    decreases items, 0nat, items.len() - from,
{
    if from < items.len() {
        let item = wire(Mode::Tagged, shapes[from as int], items[from as int]);
        let more = wire_each(Mode::Tagged, shapes, items, from + 1);
        lemma_concat_assoc(item, more, rest);
        lemma_skip_wire(shapes[from as int], items[from as int], more + rest);
        lemma_concat(item, more + rest);
        lemma_skip_each(shapes, items, from + 1, rest);
    } else {
        assert(Seq::<u8>::empty() + rest =~= rest);
    }
}

/// Positional fields written in a row can be skipped one by one.
pub proof fn lemma_skip_positional(
    fields: Seq<FieldDef>,
    items: Seq<Datum>,
    from: nat,
    rest: Seq<u8>,
)
    requires
        from <= items.len(),
        items.len() == fields.len(),
        conform_fields(Mode::Tagged, fields, items, from),
        forall|i: int| 0 <= i < fields.len() ==> valid(Mode::Tagged, (#[trigger] fields[i]).shape),
    ensures
        skip_many(
            wire_fields(Mode::Tagged, fields, items, from) + rest,
            (items.len() - from) as nat,
        ) == Ok::<nat, Fault>(wire_fields(Mode::Tagged, fields, items, from).len()),
    decreases items, 0nat, items.len() - from,
{
    if from < items.len() {
        let item = wire(Mode::Tagged, fields[from as int].shape, items[from as int]);
        let more = wire_fields(Mode::Tagged, fields, items, from + 1);
        lemma_concat_assoc(item, more, rest);
        lemma_skip_wire(fields[from as int].shape, items[from as int], more + rest);
        lemma_concat(item, more + rest);
        lemma_skip_positional(fields, items, from + 1, rest);
    } else {
        assert(Seq::<u8>::empty() + rest =~= rest);
    }
}

/// One entry of a mapping is skipped as two values in a row.
proof fn lemma_skip_pair_front(k: Seq<u8>, v: Seq<u8>, more: Seq<u8>, count: nat)
    requires
        count > 0,
        skip_len(k + (v + more)) == Ok::<nat, Fault>(k.len()),
        skip_len(v + more) == Ok::<nat, Fault>(v.len()),
    ensures
        skip_pairs(k + (v + more), count) == after(
            k.len() + v.len(),
            skip_pairs(more, (count - 1) as nat),
        ),
{
    lemma_concat(k, v + more);
    lemma_concat(v, more);
}

/// The entries of a mapping written in a row can be skipped two values at a
/// time.
pub proof fn lemma_skip_pairs(
    key: Shape,
    value: Shape,
    items: Seq<(Datum, Datum)>,
    from: nat,
    rest: Seq<u8>,
)
    requires
        from <= items.len(),
        conform_pairs(Mode::Tagged, key, value, items, from),
        valid(Mode::Tagged, key),
        valid(Mode::Tagged, value),
    ensures
        skip_pairs(
            wire_pairs(Mode::Tagged, key, value, items, from) + rest,
            (items.len() - from) as nat,
        ) == Ok::<nat, Fault>(wire_pairs(Mode::Tagged, key, value, items, from).len()),
    decreases items, 0nat, items.len() - from,
{
    if from < items.len() {
        let k = wire(Mode::Tagged, key, items[from as int].0);
        let v = wire(Mode::Tagged, value, items[from as int].1);
        let more = wire_pairs(Mode::Tagged, key, value, items, from + 1);
        assert(wire_pairs(Mode::Tagged, key, value, items, from) == k + v + more);
        assert((k + v + more) + rest =~= k + (v + (more + rest)));
        lemma_skip_wire(key, items[from as int].0, v + (more + rest));
        lemma_skip_wire(value, items[from as int].1, more + rest);
        lemma_skip_pairs(key, value, items, from + 1, rest);
        lemma_skip_pair_front(k, v, more + rest, (items.len() - from) as nat);
    } else {
        assert(Seq::<u8>::empty() + rest =~= rest);
    }
}

/// Named fields written in tagged mode can be skipped up to and with the
/// terminator.
pub proof fn lemma_skip_named(fields: Seq<FieldDef>, items: Seq<Datum>, from: nat, rest: Seq<u8>)
    requires
        from <= items.len(),
        items.len() == fields.len(),
        conform_fields(Mode::Tagged, fields, items, from),
        field_ids_valid(fields),
        forall|i: int| 0 <= i < fields.len() ==> valid(Mode::Tagged, (#[trigger] fields[i]).shape),
    ensures
        skip_fields(wire_named(fields, items, from) + rest) == Ok::<nat, Fault>(
            wire_named(fields, items, from).len(),
        ),
    decreases items, 0nat, items.len() - from,
{
    if from < items.len() {
        let field = fields[from as int];
        let d = items[from as int];
        let more = wire_named(fields, items, from + 1);
        lemma_skip_named(fields, items, from + 1, rest);
        assert(conforms(Mode::Tagged, field.shape, d));
        assert(valid(Mode::Tagged, field.shape));
        if omitted(field, d) {
            assert(wire_named_field(field, d) =~= Seq::<u8>::empty());
            assert(wire_named(fields, items, from) =~= more);
        } else {
            let id = id_wire(field.attrs.id);
            if field.shape is Optional {
                match d {
                    Datum::Maybe(Some(inner)) => {
                        let body = wire(Mode::Tagged, field.shape.element(), *inner);
                        assert(conforms(Mode::Tagged, field.shape.element(), *inner));
                        assert(valid(Mode::Tagged, field.shape.element()));
                        assert(wire_named_field(field, d) == id + body);
                        assert(wire_named(fields, items, from) == (id + body) + more);
                        assert(((id + body) + more) + rest =~= id + (body + (more + rest)));
                        lemma_id_round_trip(field.attrs.id, body + (more + rest));
                        lemma_concat(id, body + (more + rest));
                        lemma_skip_wire(field.shape.element(), *inner, more + rest);
                        lemma_concat(body, more + rest);
                    },
                    _ => {},
                }
            } else {
                let body = wire(Mode::Tagged, field.shape, d);
                assert(wire_named_field(field, d) == id + body);
                assert(wire_named(fields, items, from) == (id + body) + more);
                assert(((id + body) + more) + rest =~= id + (body + (more + rest)));
                lemma_id_round_trip(field.attrs.id, body + (more + rest));
                lemma_concat(id, body + (more + rest));
                lemma_skip_wire(field.shape, d, more + rest);
                lemma_concat(body, more + rest);
            }
        }
    } else {
        lemma_concat(seq![0u8], rest);
    }
}

/// The body of a struct or variant written in tagged mode can be skipped in
/// the way that its tag calls for.
proof fn lemma_skip_body(fields: Fields, items: Seq<Datum>, rest: Seq<u8>)
    requires
        items.len() == fields.list().len(),
        conform_fields(Mode::Tagged, fields.list(), items, 0),
        valid_fields(Mode::Tagged, fields),
    ensures
        match fields {
            Fields::Unit => wire_body(Mode::Tagged, fields, 0, items).len() == 0,
            Fields::Named(_) => skip_fields(wire_body(Mode::Tagged, fields, 0, items) + rest)
                == Ok::<nat, Fault>(wire_body(Mode::Tagged, fields, 0, items).len()),
            Fields::Unnamed(list) => {
                let w = wire_body(Mode::Tagged, fields, 0, items);
                &&& parse_uint(w + rest, word_bits()) == Ok::<(nat, nat), Fault>(
                    (items.len(), uint_wire(items.len()).len()),
                )
                &&& uint_wire(items.len()).len() <= w.len()
                &&& skip_many(tail(w + rest, uint_wire(items.len()).len()), items.len())
                    == Ok::<nat, Fault>((w.len() - uint_wire(items.len()).len()) as nat)
            },
        },
    decreases items, 1nat, 0nat,
{
    match fields {
        Fields::Unit => {},
        Fields::Named(list) => {
            lemma_skip_named(list@, items, 0, rest);
        },
        Fields::Unnamed(list) => {
            let count = uint_wire(items.len());
            let body = wire_fields(Mode::Tagged, list@, items, 0);
            assert(list@.len() == list.len());
            lemma_word_bits();
            lemma_uint_wire_len(items.len());
            lemma_concat_assoc(count, body, rest);
            lemma_uint_round_trip(items.len(), word_bits(), body + rest);
            lemma_concat(count, body + rest);
            lemma_concat(count, body);
            lemma_skip_positional(list@, items, 0, rest);
        },
    }
}

/// A value without parts can be skipped.
proof fn lemma_skip_leaf(shape: Shape, d: Datum, rest: Seq<u8>)
    requires
        conforms(Mode::Tagged, shape, d),
        d is Bool || d is Unsigned || d is Signed || d is Char || d is F32 || d is F64 || d is Text
            || d is Blob || d == Datum::Maybe(None),
    ensures
        skip_len(wire(Mode::Tagged, shape, d) + rest) == Ok::<nat, Fault>(
            wire(Mode::Tagged, shape, d).len(),
        ),
{
    let w = wire(Mode::Tagged, shape, d);
    let s = w + rest;
    lemma_concat(w, rest);
    match d {
        Datum::Unsigned(n) => {
            lemma_skip_uint(n as nat, rest);
        },
        Datum::Char(c) => {
            lemma_skip_uint(c as u32 as nat, rest);
        },
        Datum::Signed(v) => {
            if v >= 0 {
                lemma_skip_uint(v as nat, rest);
            } else {
                let inv = (-(v + 1)) as nat;
                lemma_uint_wire_len(inv);
                lemma_uint_round_trip(inv, 128, rest);
                assert(s.skip(1) =~= uint_wire(inv) + rest);
            }
        },
        Datum::F32(bits) => {
            lemma_le_bytes_len(bits as nat, 4);
        },
        Datum::F64(bits) => {
            lemma_le_bytes_len(bits as nat, 8);
        },
        Datum::Text(chars) => {
            lemma_skip_text(chars, rest);
        },
        Datum::Blob(bytes) => {
            lemma_skip_blob(bytes, rest);
        },
        _ => {},
    }
}

/// A present optional value can be skipped.
proof fn lemma_skip_some(shape: Shape, inner: Datum, rest: Seq<u8>)
    requires
        conforms(Mode::Tagged, shape, Datum::Maybe(Some(Box::new(inner)))),
        valid(Mode::Tagged, shape),
    ensures
        skip_len(wire(Mode::Tagged, shape, Datum::Maybe(Some(Box::new(inner)))) + rest) == Ok::<
            nat,
            Fault,
        >(wire(Mode::Tagged, shape, Datum::Maybe(Some(Box::new(inner)))).len()),
    decreases inner, 5nat, 0nat,
{
    let w = wire(Mode::Tagged, shape, Datum::Maybe(Some(Box::new(inner))));
    let s = w + rest;
    let body = wire(Mode::Tagged, shape.element(), inner);
    lemma_concat(w, rest);
    lemma_skip_wire(shape.element(), inner, rest);
    assert(s.skip(1) =~= body + rest);
}

/// A sequence can be skipped.
proof fn lemma_skip_list(shape: Shape, items: Seq<Datum>, rest: Seq<u8>)
    requires
        conforms(Mode::Tagged, shape, Datum::List(items)),
        valid(Mode::Tagged, shape),
    ensures
        skip_len(wire(Mode::Tagged, shape, Datum::List(items)) + rest) == Ok::<nat, Fault>(
            wire(Mode::Tagged, shape, Datum::List(items)).len(),
        ),
    decreases items, 1nat, 0nat,
{
    let w = wire(Mode::Tagged, shape, Datum::List(items));
    let head = seq_len_wire(items.len());
    let body = wire_all(Mode::Tagged, shape.element(), items, 0);
    lemma_concat(w, rest);
    lemma_concat_assoc(head, body, rest);
    lemma_seq_len_round_trip(items.len(), body + rest);
    lemma_concat(head, body + rest);
    lemma_concat(head, body);
    lemma_skip_all(shape.element(), items, 0, rest);
}

/// A tuple can be skipped.
proof fn lemma_skip_tuple(shape: Shape, items: Seq<Datum>, rest: Seq<u8>)
    requires
        conforms(Mode::Tagged, shape, Datum::Tuple(items)),
        valid(Mode::Tagged, shape),
    ensures
        skip_len(wire(Mode::Tagged, shape, Datum::Tuple(items)) + rest) == Ok::<nat, Fault>(
            wire(Mode::Tagged, shape, Datum::Tuple(items)).len(),
        ),
    decreases items, 1nat, 0nat,
{
    let w = wire(Mode::Tagged, shape, Datum::Tuple(items));
    lemma_concat(w, rest);
    match shape {
        Shape::Tuple(shapes) => {
            let body = wire_each(Mode::Tagged, shapes@, items, 0);
            assert(shapes@.len() == shapes.len());
            lemma_counted_front(TAG_TUPLE, items.len(), body, rest);
            lemma_skip_each(shapes@, items, 0, rest);
        },
        _ => {},
    }
}

/// A mapping can be skipped.
proof fn lemma_skip_mapping(shape: Shape, items: Seq<(Datum, Datum)>, rest: Seq<u8>)
    requires
        conforms(Mode::Tagged, shape, Datum::Pairs(items)),
        valid(Mode::Tagged, shape),
    ensures
        skip_len(wire(Mode::Tagged, shape, Datum::Pairs(items)) + rest) == Ok::<nat, Fault>(
            wire(Mode::Tagged, shape, Datum::Pairs(items)).len(),
        ),
    decreases items, 1nat, 0nat,
{
    let w = wire(Mode::Tagged, shape, Datum::Pairs(items));
    lemma_concat(w, rest);
    match shape {
        Shape::Mapping(key, value) => {
            let body = wire_pairs(Mode::Tagged, *key, *value, items, 0);
            lemma_counted_front(TAG_MAP, items.len(), body, rest);
            lemma_skip_pairs(*key, *value, items, 0, rest);
        },
        _ => {},
    }
}

/// A struct can be skipped.
proof fn lemma_skip_record(shape: Shape, items: Seq<Datum>, rest: Seq<u8>)
    requires
        conforms(Mode::Tagged, shape, Datum::Record(items)),
        valid(Mode::Tagged, shape),
    ensures
        skip_len(wire(Mode::Tagged, shape, Datum::Record(items)) + rest) == Ok::<nat, Fault>(
            wire(Mode::Tagged, shape, Datum::Record(items)).len(),
        ),
    decreases items, 2nat, 0nat,
{
    let w = wire(Mode::Tagged, shape, Datum::Record(items));
    let s = w + rest;
    lemma_concat(w, rest);
    lemma_word_bits();
    match shape {
        Shape::Struct(def) => {
            let body = wire_body(Mode::Tagged, def.fields, 0, items);
            lemma_skip_body(def.fields, items, rest);
            lemma_concat_assoc(seq![struct_tag(def.fields)], body, rest);
            assert(s.skip(1) =~= body + rest);
        },
        _ => {},
    }
}

/// The front of an enum variant in tagged mode: its tag, its identifier,
/// and where its body starts.
proof fn lemma_variant_front(def: EnumDef, index: usize, items: Seq<Datum>, rest: Seq<u8>)
    requires
        index < def.variants@.len(),
    ensures
        ({
            let variant = def.variants@[index as int];
            let w = wire(Mode::Tagged, Shape::Enum(Box::new(def)), Datum::Variant(index, items));
            let body = wire_body(Mode::Tagged, variant.fields, 0, items);
            let id = id_wire(variant.id);
            &&& w == seq![enum_tag(variant.fields)] + id + body
            &&& w.len() == 1 + id.len() + body.len()
            &&& (w + rest)[0] == enum_tag(variant.fields)
            &&& parse_id((w + rest).skip(1)) == Ok::<(u64, nat), Fault>((variant.id, id.len()))
            &&& tail((w + rest).skip(1), id.len()) == body + rest
            &&& id.len() >= 1
        }),
{
    let variant = def.variants@[index as int];
    let w = wire(Mode::Tagged, Shape::Enum(Box::new(def)), Datum::Variant(index, items));
    let body = wire_body(Mode::Tagged, variant.fields, 0, items);
    let id = id_wire(variant.id);
    let s = w + rest;
    assert(w == seq![enum_tag(variant.fields)] + id + body);
    lemma_concat(w, rest);
    assert(s.skip(1) =~= id + (body + rest));
    lemma_id_round_trip(variant.id, body + rest);
    lemma_concat(id, body + rest);
    lemma_concat(id, body);
}

/// An enum variant can be skipped.
#[verifier::rlimit(60)]
proof fn lemma_skip_variant(shape: Shape, index: usize, items: Seq<Datum>, rest: Seq<u8>)
    requires
        conforms(Mode::Tagged, shape, Datum::Variant(index, items)),
        valid(Mode::Tagged, shape),
    ensures
        skip_len(wire(Mode::Tagged, shape, Datum::Variant(index, items)) + rest) == Ok::<
            nat,
            Fault,
        >(wire(Mode::Tagged, shape, Datum::Variant(index, items)).len()),
    decreases items, 2nat, 0nat,
{
    lemma_word_bits();
    match shape {
        Shape::Enum(def) => {
            assert(shape == Shape::Enum(Box::new(*def)));
            let variant = def.variants@[index as int];
            lemma_variant_front(*def, index, items, rest);
            lemma_skip_body(variant.fields, items, rest);
        },
        _ => {},
    }
}

/// A tag, a signed number and an unsigned number are read back as the two
/// numbers, whatever follows.
proof fn lemma_pair_round_trip(tag: u8, first: int, second: nat, bits: nat, rest: Seq<u8>)
    requires
        bits == 64 || bits == 128,
        -(int_max(bits) as int) - 1 <= first <= int_max(bits),
        second <= uint_max(32),
    ensures
        (pair_wire(tag, first, second) + rest)[0] == tag,
        parse_number_pair((pair_wire(tag, first, second) + rest).skip(1), bits) == Ok::<
            ((int, nat), nat),
            Fault,
        >(((first, second), (pair_wire(tag, first, second).len() - 1) as nat)),
        parse_int((pair_wire(tag, first, second) + rest).skip(1), bits) == Ok::<(int, nat), Fault>(
            (first, int_wire(first).len()),
        ),
        parse_uint(
            tail((pair_wire(tag, first, second) + rest).skip(1), int_wire(first).len()),
            32,
        ) == Ok::<(nat, nat), Fault>((second, uint_wire(second).len())),
        pair_wire(tag, first, second).len() == 1 + int_wire(first).len() + uint_wire(second).len(),
{
    let a = int_wire(first);
    let b = uint_wire(second);
    let w = pair_wire(tag, first, second);
    let s = w + rest;
    lemma_concat(w, rest);
    assert(s.skip(1) =~= a + (b + rest));
    lemma_int_round_trip(first, bits, b + rest);
    lemma_concat(a, b + rest);
    lemma_uint_round_trip(second, 32, rest);
}

/// JSON trees written in a row are read back in a row and can be skipped
/// one by one.
proof fn lemma_json_round_trip_all(items: Seq<JsonDatum>, from: nat, rest: Seq<u8>)
    requires
        from <= items.len(),
        forall|i: int| 0 <= i < items.len() ==> json_conforms(#[trigger] items[i]),
    ensures
        parse_json_all(json_wire_all(items, from) + rest, (items.len() - from) as nat) == Ok::<
            (Seq<JsonDatum>, nat),
            Fault,
        >((items.skip(from as int), json_wire_all(items, from).len())),
        skip_many(json_wire_all(items, from) + rest, (items.len() - from) as nat) == Ok::<
            nat,
            Fault,
        >(json_wire_all(items, from).len()),
    decreases items, 0nat, items.len() - from,
{
    if from < items.len() {
        let item = json_wire(items[from as int]);
        let more = json_wire_all(items, from + 1);
        lemma_concat_assoc(item, more, rest);
        lemma_json_round_trip(items[from as int], more + rest);
        lemma_concat(item, more + rest);
        lemma_json_round_trip_all(items, from + 1, rest);
        assert(seq![items[from as int]] + items.skip((from + 1) as int) =~= items.skip(
            from as int,
        ));
    } else {
        assert(items.skip(from as int) =~= Seq::<JsonDatum>::empty());
        assert(Seq::<u8>::empty() + rest =~= rest);
    }
}

/// The entries of a JSON object written in a row are read back in a row
/// and can be skipped one by one.
#[verifier::rlimit(50)]
proof fn lemma_json_round_trip_entries(
    entries: Seq<(Seq<char>, JsonDatum)>,
    from: nat,
    rest: Seq<u8>,
)
    requires
        from <= entries.len(),
        forall|i: int|
            0 <= i < entries.len() ==> encode_utf8((#[trigger] entries[i]).0).len() <= usize::MAX
                && json_conforms(entries[i].1),
    ensures
        parse_json_entries(
            json_wire_entries(entries, from) + rest,
            (entries.len() - from) as nat,
        ) == Ok::<(Seq<(Seq<char>, JsonDatum)>, nat), Fault>(
            (entries.skip(from as int), json_wire_entries(entries, from).len()),
        ),
        skip_entries(json_wire_entries(entries, from) + rest, (entries.len() - from) as nat)
            == Ok::<nat, Fault>(json_wire_entries(entries, from).len()),
    decreases entries, 0nat, entries.len() - from,
{
    if from < entries.len() {
        let key = text_wire(entries[from as int].0);
        let item = json_wire(entries[from as int].1);
        let more = json_wire_entries(entries, from + 1);
        let s = json_wire_entries(entries, from) + rest;
        assert(json_wire_entries(entries, from) == key + item + more);
        assert(s =~= key + (item + (more + rest)));
        lemma_text_round_trip(entries[from as int].0, item + (more + rest));
        lemma_concat(key, item + (more + rest));
        lemma_json_round_trip(entries[from as int].1, more + rest);
        lemma_concat(item, more + rest);
        lemma_concat(key + item, more);
        lemma_concat(key, item);
        lemma_json_round_trip_entries(entries, from + 1, rest);
        assert(seq![entries[from as int]] + entries.skip((from + 1) as int) =~= entries.skip(
            from as int,
        ));
    } else {
        assert(entries.skip(from as int) =~= Seq::<(Seq<char>, JsonDatum)>::empty());
        assert(Seq::<u8>::empty() + rest =~= rest);
    }
}

/// A JSON number is read back.
proof fn lemma_json_number_round_trip(n: JsonNumber, rest: Seq<u8>)
    ensures
        parse_json_number(json_number_wire(n) + rest) == Ok::<(JsonNumber, nat), Fault>(
            (n, json_number_wire(n).len()),
        ),
        json_number_wire(n).len() >= 1,
{
    let w = json_number_wire(n);
    let s = w + rest;
    lemma_concat(w, rest);
    match n {
        JsonNumber::Unsigned(u) => {
            lemma_uint_round_trip(u as nat, 64, rest);
            assert(s.skip(1) =~= uint_wire(u as nat) + rest);
        },
        JsonNumber::Signed(i) => {
            lemma_int_round_trip(i as int, 64, rest);
            assert(s.skip(1) =~= int_wire(i as int) + rest);
        },
        JsonNumber::Float(bits) => {
            lemma_f64_round_trip(Mode::Tagged, bits, rest);
            assert(s.skip(1) =~= float_wire(Mode::Tagged, TAG_F64, bits as nat, 8) + rest);
            lemma_le_bytes_len(bits as nat, 8);
        },
    }
}

/// A JSON number can be skipped.
proof fn lemma_json_number_skip(n: JsonNumber, rest: Seq<u8>)
    ensures
        skip_len((seq![TAG_JSON_NUMBER] + json_number_wire(n)) + rest) == Ok::<nat, Fault>(
            1 + json_number_wire(n).len(),
        ),
{
    let w = seq![TAG_JSON_NUMBER] + json_number_wire(n);
    let s = w + rest;
    lemma_concat(w, rest);
    lemma_json_number_round_trip(n, rest);
    assert(s.skip(1) =~= json_number_wire(n) + rest);
    lemma_concat(json_number_wire(n), rest);
    match n {
        JsonNumber::Unsigned(u) => {
            lemma_uint_round_trip(u as nat, 64, rest);
            assert(s.skip(1).skip(1) =~= uint_wire(u as nat) + rest);
        },
        JsonNumber::Signed(i) => {
            lemma_int_round_trip(i as int, 64, rest);
            assert(s.skip(1).skip(1) =~= int_wire(i as int) + rest);
        },
        JsonNumber::Float(bits) => {
            lemma_f64_round_trip(Mode::Tagged, bits, rest);
            assert(s.skip(1).skip(1) =~= float_wire(Mode::Tagged, TAG_F64, bits as nat, 8)
                + rest);
            lemma_le_bytes_len(bits as nat, 8);
        },
    }
}

/// A JSON tree is read back from what it is written as and can be skipped,
/// whatever follows.
pub proof fn lemma_json_round_trip(d: JsonDatum, rest: Seq<u8>)
    requires
        json_conforms(d),
    ensures
        parse_json(json_wire(d) + rest) == Ok::<(JsonDatum, nat), Fault>((d, json_wire(d).len())),
        skip_len(json_wire(d) + rest) == Ok::<nat, Fault>(json_wire(d).len()),
    decreases d, 1nat, 0nat,
{
    let w = json_wire(d);
    let s = w + rest;
    lemma_concat(w, rest);
    lemma_word_bits();
    match d {
        JsonDatum::Null => {},
        JsonDatum::Bool(b) => {
            assert(s.skip(1) =~= bool_wire(b) + rest);
        },
        JsonDatum::Number(n) => {
            lemma_json_number_round_trip(n, rest);
            lemma_json_number_skip(n, rest);
            assert(s.skip(1) =~= json_number_wire(n) + rest);
        },
        JsonDatum::Text(chars) => {
            lemma_text_round_trip(chars, rest);
            assert(s.skip(1) =~= text_wire(chars) + rest);
        },
        JsonDatum::Array(items) => {
            let body = json_wire_all(items, 0);
            lemma_counted_front(TAG_JSON_ARRAY, items.len(), body, rest);
            lemma_json_round_trip_all(items, 0, rest);
            assert(items.skip(0) =~= items);
        },
        JsonDatum::Object(entries) => {
            let body = json_wire_entries(entries, 0);
            lemma_counted_front(TAG_JSON_OBJECT, entries.len(), body, rest);
            lemma_json_round_trip_entries(entries, 0, rest);
            assert(entries.skip(0) =~= entries);
        },
    }
}

/// A point in time is read back and can be skipped.
pub proof fn lemma_datetime_round_trip(mode: Mode, seconds: i64, nanos: u32, rest: Seq<u8>)
    requires
        valid_timestamp(seconds, nanos),
    ensures
        parse_datetime(mode, datetime_wire(mode, seconds, nanos) + rest) == Ok::<
            (Datum, nat),
            Fault,
        >((Datum::DateTime { seconds, nanos }, datetime_wire(mode, seconds, nanos).len())),
        skip_len(datetime_wire(Mode::Tagged, seconds, nanos) + rest) == Ok::<nat, Fault>(
            datetime_wire(Mode::Tagged, seconds, nanos).len(),
        ),
{
    lemma_pair_round_trip(TAG_CHRONO_DATETIME, seconds as int, nanos as nat, 64, rest);
    lemma_concat(datetime_wire(mode, seconds, nanos), rest);
}

/// A calendar date is read back and can be skipped.
pub proof fn lemma_date_round_trip(days: i64, rest: Seq<u8>)
    requires
        valid_days(days),
    ensures
        parse_date(date_wire(days) + rest) == Ok::<(Datum, nat), Fault>(
            (Datum::Date { days }, date_wire(days).len()),
        ),
        skip_len(date_wire(days) + rest) == Ok::<nat, Fault>(date_wire(days).len()),
{
    let w = date_wire(days);
    let s = w + rest;
    lemma_concat(w, rest);
    lemma_int_round_trip(days as int, 64, rest);
    assert(s.skip(1) =~= int_wire(days as int) + rest);
}

/// A time of day is read back and can be skipped.
pub proof fn lemma_time_round_trip(seconds: u32, nanos: u32, rest: Seq<u8>)
    requires
        valid_time(seconds, nanos),
    ensures
        parse_time(time_wire(seconds, nanos) + rest) == Ok::<(Datum, nat), Fault>(
            (Datum::Time { seconds, nanos }, time_wire(seconds, nanos).len()),
        ),
        skip_len(time_wire(seconds, nanos) + rest) == Ok::<nat, Fault>(
            time_wire(seconds, nanos).len(),
        ),
{
    let a = uint_wire(seconds as nat);
    let b = uint_wire(nanos as nat);
    let w = time_wire(seconds, nanos);
    let s = w + rest;
    lemma_concat(w, rest);
    assert(int_wire(seconds as int) == a);
    assert(s.skip(1) =~= a + (b + rest));
    lemma_uint_round_trip(seconds as nat, 32, b + rest);
    lemma_concat(a, b + rest);
    lemma_uint_round_trip(nanos as nat, 32, rest);
}

/// A decimal is read back and can be skipped.
pub proof fn lemma_decimal_round_trip(mantissa: i128, scale: u32, rest: Seq<u8>)
    requires
        valid_decimal(mantissa, scale),
    ensures
        parse_decimal(decimal_wire(mantissa, scale) + rest) == Ok::<(Datum, nat), Fault>(
            (Datum::Decimal { mantissa, scale }, decimal_wire(mantissa, scale).len()),
        ),
        skip_len(decimal_wire(mantissa, scale) + rest) == Ok::<nat, Fault>(
            decimal_wire(mantissa, scale).len(),
        ),
{
    lemma_pair_round_trip(TAG_DECIMAL, mantissa as int, scale as nat, 128, rest);
    lemma_concat(decimal_wire(mantissa, scale), rest);
}

/// A 128-bit identifier is read back and can be skipped.
pub proof fn lemma_uuid_round_trip(mode: Mode, id: u128, rest: Seq<u8>)
    ensures
        parse_uuid(mode, uuid_wire(mode, id) + rest) == Ok::<(Datum, nat), Fault>(
            (Datum::Uuid(id), uuid_wire(mode, id).len()),
        ),
        skip_len(uuid_wire(Mode::Tagged, id) + rest) == Ok::<nat, Fault>(
            uuid_wire(Mode::Tagged, id).len(),
        ),
{
    let w = uuid_wire(mode, id);
    let s = w + rest;
    lemma_concat(w, rest);
    lemma_concat(uuid_wire(Mode::Tagged, id), rest);
    lemma_radix_values();
    lemma_le_bytes_len(id as nat, 16);
    lemma_le_value_of_bytes(id as nat, 16);
    if !(mode == Mode::Packed && id == 0) {
        assert(s.subrange(1, 17) =~= le_bytes(id as nat, 16));
    }
}

/// A date, a time, a decimal or an identifier can be skipped.
proof fn lemma_skip_numbers(shape: Shape, d: Datum, rest: Seq<u8>)
    requires
        conforms(Mode::Tagged, shape, d),
        d is DateTime || d is Date || d is Time || d is Decimal || d is Uuid,
    ensures
        skip_len(wire(Mode::Tagged, shape, d) + rest) == Ok::<nat, Fault>(
            wire(Mode::Tagged, shape, d).len(),
        ),
{
    match d {
        Datum::DateTime { seconds, nanos } => {
            lemma_datetime_round_trip(Mode::Tagged, seconds, nanos, rest);
        },
        Datum::Date { days } => {
            lemma_date_round_trip(days, rest);
        },
        Datum::Time { seconds, nanos } => {
            lemma_time_round_trip(seconds, nanos, rest);
        },
        Datum::Decimal { mantissa, scale } => {
            lemma_decimal_round_trip(mantissa, scale, rest);
        },
        Datum::Uuid(id) => {
            lemma_uuid_round_trip(Mode::Tagged, id, rest);
        },
        _ => {},
    }
}

/// Skipper completeness: whatever a value of a valid shape is written as in
/// tagged mode, the skipper consumes exactly those bytes and stops at what
/// follows.
pub proof fn lemma_skip_wire(shape: Shape, d: Datum, rest: Seq<u8>)
    requires
        conforms(Mode::Tagged, shape, d),
        valid(Mode::Tagged, shape),
    ensures
        skip_len(wire(Mode::Tagged, shape, d) + rest) == Ok::<nat, Fault>(
            wire(Mode::Tagged, shape, d).len(),
        ),
    decreases d, 4nat, 0nat,
{
    match d {
        Datum::Maybe(Some(inner)) => lemma_skip_some(shape, *inner, rest),
        Datum::List(items) => lemma_skip_list(shape, items, rest),
        Datum::Tuple(items) => lemma_skip_tuple(shape, items, rest),
        Datum::Pairs(items) => lemma_skip_mapping(shape, items, rest),
        Datum::Record(items) => lemma_skip_record(shape, items, rest),
        Datum::Variant(index, items) => lemma_skip_variant(shape, index, items, rest),
        Datum::DateTime { .. } | Datum::Date { .. } | Datum::Time { .. } | Datum::Decimal { .. }
        | Datum::Uuid(_) => lemma_skip_numbers(shape, d, rest),
        Datum::Json(tree) => lemma_json_round_trip(tree, rest),
        _ => lemma_skip_leaf(shape, d, rest),
    }
}

// ---------------------------------------------------------------------
// What is written is read back
// ---------------------------------------------------------------------
/// What tagged mode writes after a field's identifier: of an optional field
/// what it holds, of any other field the value itself.
pub open spec fn payload_of(field: FieldDef, d: Datum) -> Datum {
    if field.shape is Optional {
        match d {
            Datum::Maybe(Some(inner)) => *inner,
            _ => d,
        }
    } else {
        d
    }
}

/// Whether a named field comes back from its own encoding as it was: if it
/// is left out it must not be required, and what decoding puts in its place
/// must be the value that it had.
pub open spec fn returned(field: FieldDef, d: Datum) -> bool {
    &&& omitted(field, d) ==> !required(field)
    &&& field_value(
        field,
        if omitted(field, d) {
            None
        } else {
            Some(payload_of(field, d))
        },
    ) == d
}

/// Whether the parts of a struct or variant body come back from their own
/// encoding as they were.
pub open spec fn faithful_body(mode: Mode, fields: Fields, items: Seq<Datum>) -> bool
    decreases items, 0nat,
{
    match fields {
        Fields::Unit => true,
        Fields::Named(list) => forall|i: int|
            0 <= i < items.len() && i < list@.len() ==> if mode == Mode::Tagged {
                returned(list@[i], #[trigger] items[i]) && (!omitted(list@[i], items[i])
                    ==> faithful_payload(list@[i], items[i]))
            } else {
                faithful(mode, list@[i].shape, items[i])
            },
        Fields::Unnamed(list) => forall|i: int|
            0 <= i < items.len() && i < list@.len() ==> faithful(
                mode,
                list@[i].shape,
                #[trigger] items[i],
            ),
    }
}

/// Whether the payload of a named field comes back from its own encoding as
/// it was.
pub open spec fn faithful_payload(field: FieldDef, d: Datum) -> bool
    decreases d, 2nat,
{
    if field.shape is Optional {
        match d {
            Datum::Maybe(Some(inner)) => faithful(Mode::Tagged, field.shape.element(), *inner),
            _ => true,
        }
    } else {
        faithful(Mode::Tagged, field.shape, d)
    }
}

/// Whether a value comes back from its own encoding as it was.
///
/// Every value does but one kind: a struct or variant with named fields in
/// tagged mode of which one is not read, or is left out while it is
/// required or while decoding would put another value in its place.
pub open spec fn faithful(mode: Mode, shape: Shape, d: Datum) -> bool
    decreases d, 1nat,
{
    match d {
        Datum::Maybe(Some(inner)) => faithful(mode, shape.element(), *inner),
        Datum::List(items) => forall|i: int|
            0 <= i < items.len() ==> faithful(mode, shape.element(), #[trigger] items[i]),
        Datum::Tuple(items) => match shape {
            Shape::Tuple(shapes) => forall|i: int|
                0 <= i < items.len() && i < shapes@.len() ==> faithful(
                    mode,
                    shapes@[i],
                    #[trigger] items[i],
                ),
            _ => true,
        },
        Datum::Pairs(items) => match shape {
            Shape::Mapping(key, value) => forall|i: int|
                0 <= i < items.len() ==> faithful(mode, *key, (#[trigger] items[i]).0) && faithful(
                    mode,
                    *value,
                    items[i].1,
                ),
            _ => true,
        },
        Datum::Record(items) => match shape {
            Shape::Struct(def) => faithful_body(mode, def.fields, items),
            _ => true,
        },
        Datum::Variant(index, items) => match shape {
            Shape::Enum(def) => index < def.variants@.len() ==> faithful_body(
                mode,
                def.variants@[index as int].fields,
                items,
            ),
            _ => true,
        },
        _ => true,
    }
}

/// The slots of the reading declaration after the value `d` arrives under
/// the identifier `id`: the slot of the field that has the identifier and
/// is read takes it; if there is no such field, nothing changes.
pub open spec fn deliver(
    reading: Seq<FieldDef>,
    slots: Seq<Option<Datum>>,
    id: u64,
    d: Datum,
) -> Seq<Option<Datum>> {
    let found = find_field(reading, id, 0);
    if found < reading.len() {
        slots.update(found as int, Some(d))
    } else {
        slots
    }
}

/// The slots of the reading declaration after all that was written of the
/// fields from index `from` on under the writing declaration has arrived.
pub open spec fn received(
    writing: Seq<FieldDef>,
    items: Seq<Datum>,
    reading: Seq<FieldDef>,
    from: nat,
    slots: Seq<Option<Datum>>,
) -> Seq<Option<Datum>>
    decreases items.len() - from,
{
    if from >= items.len() || from >= writing.len() {
        slots
    } else if omitted(writing[from as int], items[from as int]) {
        received(writing, items, reading, from + 1, slots)
    } else {
        received(
            writing,
            items,
            reading,
            from + 1,
            deliver(
                reading,
                slots,
                writing[from as int].attrs.id,
                payload_of(writing[from as int], items[from as int]),
            ),
        )
    }
}

/// Whether what is written of the fields from index `from` on can be read
/// under the reading declaration: a field that is written and whose
/// identifier a field of the reading declaration has must have the same
/// payload shape as that one, and its payload must come back from its own
/// encoding as it was.
pub open spec fn readable(
    writing: Seq<FieldDef>,
    items: Seq<Datum>,
    reading: Seq<FieldDef>,
    from: nat,
) -> bool {
    forall|i: int|
        from <= i < items.len() && i < writing.len() && !omitted(writing[i], #[trigger] items[i])
            && find_field(reading, writing[i].attrs.id, 0) < reading.len() ==> {
            &&& payload_shape(
                reading[find_field(reading, writing[i].attrs.id, 0) as int].shape,
            ) == payload_shape(writing[i].shape)
            &&& faithful_payload(writing[i], items[i])
        }
}

/// The payload of a field that is written is a value of the field's payload
/// shape, and that shape is valid.
proof fn lemma_payload(field: FieldDef, d: Datum)
    requires
        conforms(Mode::Tagged, field.shape, d),
        valid(Mode::Tagged, field.shape),
        !omitted(field, d),
    ensures
        conforms(Mode::Tagged, payload_shape(field.shape), payload_of(field, d)),
        valid(Mode::Tagged, payload_shape(field.shape)),
        wire_named_field(field, d) == id_wire(field.attrs.id) + wire(
            Mode::Tagged,
            payload_shape(field.shape),
            payload_of(field, d),
        ),
        faithful_payload(field, d) == faithful(
            Mode::Tagged,
            payload_shape(field.shape),
            payload_of(field, d),
        ),
        field.shape is Optional ==> d == Datum::Maybe(Some(Box::new(payload_of(field, d)))),
{
    if field.shape is Optional {
        match d {
            Datum::Maybe(Some(inner)) => {
                assert(conforms(Mode::Tagged, field.shape.element(), *inner));
            },
            _ => {},
        }
    }
}

/// Values of one shape written in a row are read back in a row.
pub proof fn lemma_round_trip_all(
    mode: Mode,
    shape: Shape,
    items: Seq<Datum>,
    from: nat,
    rest: Seq<u8>,
)
    requires
        from <= items.len(),
        conform_all(mode, shape, items, from),
        valid(mode, shape),
        forall|i: int| 0 <= i < items.len() ==> faithful(mode, shape, #[trigger] items[i]),
    ensures
        parse_repeat(
            mode,
            shape,
            wire_all(mode, shape, items, from) + rest,
            (items.len() - from) as nat,
        ) == Ok::<(Seq<Datum>, nat), Fault>(
            (items.skip(from as int), wire_all(mode, shape, items, from).len()),
        ),
    decreases items, 0nat, items.len() - from,
{
    if from < items.len() {
        let item = wire(mode, shape, items[from as int]);
        let more = wire_all(mode, shape, items, from + 1);
        lemma_concat_assoc(item, more, rest);
        lemma_round_trip(mode, shape, items[from as int], more + rest);
        lemma_concat(item, more + rest);
        lemma_round_trip_all(mode, shape, items, from + 1, rest);
        assert(seq![items[from as int]] + items.skip((from + 1) as int) =~= items.skip(from as int));
    } else {
        assert(items.skip(from as int) =~= Seq::<Datum>::empty());
    }
}

/// The elements of a tuple written in a row are read back in a row.
pub proof fn lemma_round_trip_each(
    mode: Mode,
    shapes: Seq<Shape>,
    items: Seq<Datum>,
    from: nat,
    rest: Seq<u8>,
)
    requires
        from <= items.len(),
        items.len() == shapes.len(),
        conform_each(mode, shapes, items, from),
        forall|i: int| 0 <= i < shapes.len() ==> valid(mode, #[trigger] shapes[i]),
        forall|i: int| 0 <= i < items.len() ==> faithful(mode, shapes[i], #[trigger] items[i]),
    ensures
        parse_each(mode, shapes, wire_each(mode, shapes, items, from) + rest, from) == Ok::<
            (Seq<Datum>, nat),
            Fault,
        >((items.skip(from as int), wire_each(mode, shapes, items, from).len())),
    decreases items, 0nat, items.len() - from,
{
    if from < items.len() {
        let item = wire(mode, shapes[from as int], items[from as int]);
        let more = wire_each(mode, shapes, items, from + 1);
        lemma_concat_assoc(item, more, rest);
        lemma_round_trip(mode, shapes[from as int], items[from as int], more + rest);
        lemma_concat(item, more + rest);
        lemma_round_trip_each(mode, shapes, items, from + 1, rest);
        assert(seq![items[from as int]] + items.skip((from + 1) as int) =~= items.skip(from as int));
    } else {
        assert(items.skip(from as int) =~= Seq::<Datum>::empty());
    }
}

/// Positional fields written in a row are read back in a row.
pub proof fn lemma_round_trip_positional(
    mode: Mode,
    fields: Seq<FieldDef>,
    items: Seq<Datum>,
    from: nat,
    rest: Seq<u8>,
)
    requires
        from <= items.len(),
        items.len() == fields.len(),
        conform_fields(mode, fields, items, from),
        forall|i: int| 0 <= i < fields.len() ==> valid(mode, (#[trigger] fields[i]).shape),
        forall|i: int|
            0 <= i < items.len() ==> faithful(mode, fields[i].shape, #[trigger] items[i]),
    ensures
        parse_fields(mode, fields, wire_fields(mode, fields, items, from) + rest, from) == Ok::<
            (Seq<Datum>, nat),
            Fault,
        >((items.skip(from as int), wire_fields(mode, fields, items, from).len())),
    decreases items, 0nat, items.len() - from,
{
    if from < items.len() {
        let item = wire(mode, fields[from as int].shape, items[from as int]);
        let more = wire_fields(mode, fields, items, from + 1);
        lemma_concat_assoc(item, more, rest);
        lemma_round_trip(mode, fields[from as int].shape, items[from as int], more + rest);
        lemma_concat(item, more + rest);
        lemma_round_trip_positional(mode, fields, items, from + 1, rest);
        assert(seq![items[from as int]] + items.skip((from + 1) as int) =~= items.skip(from as int));
    } else {
        assert(items.skip(from as int) =~= Seq::<Datum>::empty());
    }
}

/// One entry of a mapping is read back.
proof fn lemma_round_trip_pair(mode: Mode, shape: Shape, pair: (Datum, Datum), rest: Seq<u8>)
    requires
        shape is Mapping,
        conforms(mode, *shape->Mapping_0, pair.0),
        conforms(mode, *shape->Mapping_1, pair.1),
        valid(mode, shape),
        faithful(mode, *shape->Mapping_0, pair.0),
        faithful(mode, *shape->Mapping_1, pair.1),
    ensures
        parse_pair(
            mode,
            shape,
            wire(mode, *shape->Mapping_0, pair.0) + (wire(mode, *shape->Mapping_1, pair.1) + rest),
        ) == Ok::<((Datum, Datum), nat), Fault>(
            (
                pair,
                wire(mode, *shape->Mapping_0, pair.0).len() + wire(
                    mode,
                    *shape->Mapping_1,
                    pair.1,
                ).len(),
            ),
        ),
    decreases pair, 5nat, 0nat,
{
    let key = *shape->Mapping_0;
    let value = *shape->Mapping_1;
    let wk = wire(mode, key, pair.0);
    let wv = wire(mode, value, pair.1);
    lemma_parse_pair(mode, shape, wk + (wv + rest));
    lemma_round_trip(mode, key, pair.0, wv + rest);
    lemma_concat(wk, wv + rest);
    lemma_round_trip(mode, value, pair.1, rest);
}

/// The entries of a mapping written in a row are read back in a row.
pub proof fn lemma_round_trip_pairs(
    mode: Mode,
    shape: Shape,
    items: Seq<(Datum, Datum)>,
    from: nat,
    rest: Seq<u8>,
)
    requires
        shape is Mapping,
        from <= items.len(),
        conform_pairs(mode, *shape->Mapping_0, *shape->Mapping_1, items, from),
        valid(mode, shape),
        forall|i: int|
            0 <= i < items.len() ==> faithful(mode, *shape->Mapping_0, (#[trigger] items[i]).0)
                && faithful(mode, *shape->Mapping_1, items[i].1),
    ensures
        parse_pairs(
            mode,
            shape,
            wire_pairs(mode, *shape->Mapping_0, *shape->Mapping_1, items, from) + rest,
            (items.len() - from) as nat,
        ) == Ok::<(Seq<(Datum, Datum)>, nat), Fault>(
            (
                items.skip(from as int),
                wire_pairs(mode, *shape->Mapping_0, *shape->Mapping_1, items, from).len(),
            ),
        ),
    decreases items, 0nat, items.len() - from,
{
    let key = *shape->Mapping_0;
    let value = *shape->Mapping_1;
    if from < items.len() {
        let k = wire(mode, key, items[from as int].0);
        let v = wire(mode, value, items[from as int].1);
        let more = wire_pairs(mode, key, value, items, from + 1);
        let s = wire_pairs(mode, key, value, items, from) + rest;
        assert(wire_pairs(mode, key, value, items, from) == k + v + more);
        assert(s =~= k + (v + (more + rest)));
        assert(faithful(mode, key, items[from as int].0));
        lemma_round_trip_pair(mode, shape, items[from as int], more + rest);
        lemma_concat(k + v, more + rest);
        assert((k + v) + (more + rest) =~= s);
        lemma_round_trip_pairs(mode, shape, items, from + 1, rest);
        assert(seq![items[from as int]] + items.skip((from + 1) as int) =~= items.skip(
            from as int,
        ));
    } else {
        assert(items.skip(from as int) =~= Seq::<(Datum, Datum)>::empty());
        assert(Seq::<u8>::empty() + rest =~= rest);
    }
}

/// Dropping `a` bytes and then `b` more is dropping `a + b`, also where the
/// sequence is shorter.
pub proof fn lemma_skip_twice_tail(s: Seq<u8>, a: nat, b: nat)
    requires
        a + b <= s.len(),
    ensures
        tail(tail(s, a), b) == tail(s, a + b),
{
    crate::spec::lemma_skip_twice(s, a, b);
}

/// Named fields written under one declaration are read under another: each
/// value arrives in the slot of the field that has its identifier, or is
/// skipped if no field that is read has.
pub proof fn lemma_named_evolution(
    writing: Seq<FieldDef>,
    items: Seq<Datum>,
    reading: Seq<FieldDef>,
    from: nat,
    slots: Seq<Option<Datum>>,
    rest: Seq<u8>,
)
    requires
        from <= items.len(),
        items.len() == writing.len(),
        conform_fields(Mode::Tagged, writing, items, from),
        field_ids_valid(writing),
        forall|i: int|
            0 <= i < writing.len() ==> valid(Mode::Tagged, (#[trigger] writing[i]).shape),
        readable(writing, items, reading, from),
    ensures
        parse_named(reading, wire_named(writing, items, from) + rest, slots) == Ok::<
            (Seq<Option<Datum>>, nat),
            Fault,
        >(
            (
                received(writing, items, reading, from, slots),
                wire_named(writing, items, from).len(),
            ),
        ),
    decreases items, 0nat, items.len() - from,
{
    if from < items.len() {
        let field = writing[from as int];
        let d = items[from as int];
        let more = wire_named(writing, items, from + 1);
        assert(conforms(Mode::Tagged, field.shape, d));
        assert(valid(Mode::Tagged, field.shape));
        if omitted(field, d) {
            assert(wire_named_field(field, d) =~= Seq::<u8>::empty());
            assert(wire_named(writing, items, from) =~= more);
            lemma_named_evolution(writing, items, reading, from + 1, slots, rest);
        } else {
            lemma_payload(field, d);
            let shape = payload_shape(field.shape);
            let payload = payload_of(field, d);
            let id = id_wire(field.attrs.id);
            let body = wire(Mode::Tagged, shape, payload);
            let s = wire_named(writing, items, from) + rest;
            assert(wire_named(writing, items, from) == (id + body) + more);
            assert(s =~= id + (body + (more + rest)));
            lemma_id_round_trip(field.attrs.id, body + (more + rest));
            lemma_concat(id, body + (more + rest));
            lemma_concat(body, more + rest);
            lemma_parse_entry(reading, field.attrs.id, body + (more + rest));
            let found = find_field(reading, field.attrs.id, 0);
            if found < reading.len() {
                lemma_round_trip(Mode::Tagged, shape, payload, more + rest);
            } else {
                lemma_skip_wire(shape, payload, more + rest);
            }
            let next = deliver(reading, slots, field.attrs.id, payload);
            lemma_named_evolution(writing, items, reading, from + 1, next, rest);
            lemma_concat(id + body, more);
            lemma_concat(id, body);
        }
    } else {
        lemma_concat(seq![0u8], rest);
    }
}

/// With valid identifiers, the field that has the identifier of field
/// `index` and is read is that field itself if it is read, and none if it is
/// not.
proof fn lemma_find_own(fields: Seq<FieldDef>, index: int, from: nat)
    requires
        field_ids_valid(fields),
        0 <= index < fields.len(),
        from <= index,
    ensures
        find_field(fields, fields[index].attrs.id, from) == if fields[index].attrs.skip_decode {
            fields.len()
        } else {
            index as nat
        },
    decreases fields.len() - from,
{
    if from < index {
        lemma_find_own(fields, index, from + 1);
    } else if fields[index].attrs.skip_decode {
        lemma_find_none(fields, fields[index].attrs.id, index, from);
    }
}

/// No field from index `from` on has the identifier of the earlier field
/// `index`.
proof fn lemma_find_none(fields: Seq<FieldDef>, id: u64, index: int, from: nat)
    requires
        field_ids_valid(fields),
        0 <= index < fields.len(),
        id == fields[index].attrs.id,
        index <= from,
        fields[index].attrs.skip_decode || index < from,
    ensures
        find_field(fields, id, from) == fields.len(),
    decreases fields.len() - from,
{
    if from < fields.len() {
        lemma_find_none(fields, id, index, from + 1);
    }
}

/// What a declaration receives of its own encoding: each field that is
/// written and read has its payload in its slot, and every other slot is as
/// it was.
proof fn lemma_received_own(
    fields: Seq<FieldDef>,
    items: Seq<Datum>,
    from: nat,
    slots: Seq<Option<Datum>>,
)
    requires
        field_ids_valid(fields),
        items.len() == fields.len(),
        slots.len() == fields.len(),
        from <= items.len(),
    ensures
        received(fields, items, fields, from, slots).len() == fields.len(),
        forall|i: int|
            0 <= i < fields.len() ==> (#[trigger] received(fields, items, fields, from, slots)[i])
                == if from <= i && !omitted(fields[i], items[i]) && !fields[i].attrs.skip_decode {
                Some(payload_of(fields[i], items[i]))
            } else {
                slots[i]
            },
    decreases items.len() - from,
{
    if from < items.len() {
        let field = fields[from as int];
        if omitted(field, items[from as int]) {
            lemma_received_own(fields, items, from + 1, slots);
        } else {
            lemma_find_own(fields, from as int, 0);
            let next = deliver(fields, slots, field.attrs.id, payload_of(field, items[from as int]));
            lemma_received_own(fields, items, from + 1, next);
        }
    }
}

/// With valid identifiers, the variant that has the identifier of variant
/// `index`, and in tagged mode its form, is that variant itself.
proof fn lemma_find_variant(mode: Mode, variants: Seq<VariantDef>, index: int, from: nat)
    requires
        variant_ids_valid(variants),
        0 <= index < variants.len(),
        from <= index,
    ensures
        find_variant(
            mode,
            variants,
            variants[index].id,
            enum_tag(variants[index].fields),
            from,
        ) == index,
    decreases variants.len() - from,
{
    if from < index {
        lemma_find_variant(mode, variants, index, from + 1);
    }
}

/// The body of a struct or variant is read back.
proof fn lemma_round_trip_body(
    mode: Mode,
    fields: Fields,
    items: Seq<Datum>,
    owner: Seq<char>,
    variant: Option<Seq<char>>,
    hash: u64,
    rest: Seq<u8>,
)
    requires
        items.len() == fields.list().len(),
        conform_fields(mode, fields.list(), items, 0),
        valid_fields(mode, fields),
        faithful_body(mode, fields, items),
    ensures
        parse_body(mode, fields, wire_body(mode, fields, hash, items) + rest, owner, variant, hash)
            == Ok::<(Seq<Datum>, nat), Fault>((items, wire_body(mode, fields, hash, items).len())),
    decreases items, 1nat, 0nat,
{
    let w = wire_body(mode, fields, hash, items);
    let s = w + rest;
    lemma_concat(w, rest);
    lemma_word_bits();
    match fields {
        Fields::Unit => {
            assert(items =~= Seq::<Datum>::empty());
        },
        Fields::Named(list) => {
            if mode == Mode::Tagged {
                let blank = empty_slots(list@.len());
                assert forall|i: int|
                    0 <= i < items.len() && i < list@.len() && !omitted(
                        list@[i],
                        #[trigger] items[i],
                    ) && find_field(list@, list@[i].attrs.id, 0) < list@.len() implies {
                    &&& payload_shape(
                        list@[find_field(list@, list@[i].attrs.id, 0) as int].shape,
                    ) == payload_shape(list@[i].shape)
                    &&& faithful_payload(list@[i], items[i])
                } by {
                    lemma_find_own(list@, i, 0);
                }
                lemma_named_evolution(list@, items, list@, 0, blank, rest);
                lemma_received_own(list@, items, 0, blank);
                let slots = received(list@, items, list@, 0, blank);
                lemma_all_present(list@, items, slots, 0);
                assert(assemble(list@, slots) =~= items);
            } else {
                let head = le_bytes(hash as nat, 8);
                let body = wire_fields(mode, list@, items, 0);
                lemma_radix_values();
                lemma_le_bytes_len(hash as nat, 8);
                lemma_le_value_of_bytes(hash as nat, 8);
                lemma_concat_assoc(head, body, rest);
                lemma_concat(head, body + rest);
                lemma_concat(head, body);
                lemma_round_trip_positional(mode, list@, items, 0, rest);
                assert(items.skip(0) =~= items);
            }
        },
        Fields::Unnamed(list) => {
            let head = uint_wire(items.len());
            let body = wire_fields(mode, list@, items, 0);
            assert(list@.len() == list.len());
            lemma_uint_wire_len(items.len());
            lemma_concat_assoc(head, body, rest);
            lemma_uint_round_trip(items.len(), word_bits(), body + rest);
            lemma_concat(head, body + rest);
            lemma_concat(head, body);
            lemma_round_trip_positional(mode, list@, items, 0, rest);
            assert(items.skip(0) =~= items);
        },
    }
}

/// When every field is returned by its own encoding, no required field is
/// missing from what the declaration receives of it.
proof fn lemma_all_present(
    fields: Seq<FieldDef>,
    items: Seq<Datum>,
    slots: Seq<Option<Datum>>,
    from: nat,
)
    requires
        items.len() == fields.len(),
        slots.len() == fields.len(),
        forall|i: int| 0 <= i < fields.len() ==> returned(fields[i], #[trigger] items[i]),
        forall|i: int|
            0 <= i < fields.len() ==> (#[trigger] slots[i]) == if !omitted(fields[i], items[i])
                && !fields[i].attrs.skip_decode {
                Some(payload_of(fields[i], items[i]))
            } else {
                None
            },
    ensures
        first_missing(fields, slots, from) == fields.len(),
        forall|i: int|
            0 <= i < fields.len() ==> field_value(fields[i], slots[i]) == #[trigger] items[i],
    decreases fields.len() - from,
{
    if from < fields.len() {
        lemma_all_present(fields, items, slots, from + 1);
        assert(returned(fields[from as int], items[from as int]));
        assert(slots[from as int] == if !omitted(fields[from as int], items[from as int])
            && !fields[from as int].attrs.skip_decode {
            Some(payload_of(fields[from as int], items[from as int]))
        } else {
            None
        });
    }
    assert forall|i: int| 0 <= i < fields.len() implies field_value(fields[i], slots[i])
        == #[trigger] items[i] by {
        assert(returned(fields[i], items[i]));
        assert(slots[i] == if !omitted(fields[i], items[i]) && !fields[i].attrs.skip_decode {
            Some(payload_of(fields[i], items[i]))
        } else {
            None
        });
    }
}

/// A value without parts is read back.
proof fn lemma_round_trip_leaf(mode: Mode, shape: Shape, d: Datum, rest: Seq<u8>)
    requires
        conforms(mode, shape, d),
        d is Bool || d is Unsigned || d is Signed || d is Char || d is F32 || d is F64 || d is Text
            || d is Blob || d == Datum::Maybe(None),
    ensures
        parse(mode, shape, wire(mode, shape, d) + rest) == Ok::<(Datum, nat), Fault>(
            (d, wire(mode, shape, d).len()),
        ),
{
    let w = wire(mode, shape, d);
    lemma_concat(w, rest);
    lemma_word_bits();
    match d {
        Datum::Bool(b) => {
            lemma_bool_round_trip(mode, b, rest);
        },
        Datum::Unsigned(n) => {
            let bits: nat = match shape {
                Shape::U8 => 8,
                Shape::U16 => 16,
                Shape::U32 => 32,
                Shape::U64 => 64,
                Shape::U128 => 128,
                _ => word_bits(),
            };
            lemma_uint_round_trip(n as nat, bits, rest);
        },
        Datum::Signed(v) => {
            let bits: nat = match shape {
                Shape::I8 => 8,
                Shape::I16 => 16,
                Shape::I32 => 32,
                Shape::I64 => 64,
                Shape::I128 => 128,
                _ => word_bits(),
            };
            lemma_int_round_trip(v as int, bits, rest);
        },
        Datum::Char(c) => {
            lemma_char_round_trip(c, rest);
        },
        Datum::F32(bits) => {
            lemma_f32_round_trip(mode, bits, rest);
        },
        Datum::F64(bits) => {
            lemma_f64_round_trip(mode, bits, rest);
        },
        Datum::Text(chars) => {
            lemma_text_round_trip(chars, rest);
        },
        Datum::Blob(bytes) => {
            lemma_blob_round_trip(bytes, rest);
        },
        _ => {},
    }
}

/// A present optional value is read back.
proof fn lemma_round_trip_some(mode: Mode, shape: Shape, inner: Datum, rest: Seq<u8>)
    requires
        conforms(mode, shape, Datum::Maybe(Some(Box::new(inner)))),
        valid(mode, shape),
        faithful(mode, shape, Datum::Maybe(Some(Box::new(inner)))),
    ensures
        parse(mode, shape, wire(mode, shape, Datum::Maybe(Some(Box::new(inner)))) + rest) == Ok::<
            (Datum, nat),
            Fault,
        >(
            (
                Datum::Maybe(Some(Box::new(inner))),
                wire(mode, shape, Datum::Maybe(Some(Box::new(inner)))).len(),
            ),
        ),
    decreases inner, 5nat, 0nat,
{
    let w = wire(mode, shape, Datum::Maybe(Some(Box::new(inner))));
    let s = w + rest;
    let body = wire(mode, shape.element(), inner);
    lemma_concat(w, rest);
    lemma_round_trip(mode, shape.element(), inner, rest);
    assert(s.skip(1) =~= body + rest);
    lemma_wire_nonempty(mode, shape.element(), inner);
}

/// A sequence is read back.
proof fn lemma_round_trip_list(mode: Mode, shape: Shape, items: Seq<Datum>, rest: Seq<u8>)
    requires
        conforms(mode, shape, Datum::List(items)),
        valid(mode, shape),
        faithful(mode, shape, Datum::List(items)),
    ensures
        parse(mode, shape, wire(mode, shape, Datum::List(items)) + rest) == Ok::<
            (Datum, nat),
            Fault,
        >((Datum::List(items), wire(mode, shape, Datum::List(items)).len())),
    decreases items, 1nat, 0nat,
{
    let w = wire(mode, shape, Datum::List(items));
    let head = seq_len_wire(items.len());
    let body = wire_all(mode, shape.element(), items, 0);
    lemma_concat(w, rest);
    lemma_concat_assoc(head, body, rest);
    lemma_seq_len_round_trip(items.len(), body + rest);
    lemma_concat(head, body + rest);
    lemma_concat(head, body);
    lemma_round_trip_all(mode, shape.element(), items, 0, rest);
    assert(items.skip(0) =~= items);
}

/// A tuple is read back.
proof fn lemma_round_trip_tuple(mode: Mode, shape: Shape, items: Seq<Datum>, rest: Seq<u8>)
    requires
        conforms(mode, shape, Datum::Tuple(items)),
        valid(mode, shape),
        faithful(mode, shape, Datum::Tuple(items)),
    ensures
        parse(mode, shape, wire(mode, shape, Datum::Tuple(items)) + rest) == Ok::<
            (Datum, nat),
            Fault,
        >((Datum::Tuple(items), wire(mode, shape, Datum::Tuple(items)).len())),
    decreases items, 1nat, 0nat,
{
    let w = wire(mode, shape, Datum::Tuple(items));
    lemma_concat(w, rest);
    match shape {
        Shape::Tuple(shapes) => {
            let body = wire_each(mode, shapes@, items, 0);
            assert(shapes@.len() == shapes.len());
            lemma_counted_round_trip(TAG_TUPLE, items.len(), body + rest);
            lemma_concat_assoc(seq![TAG_TUPLE] + uint_wire(items.len()), body, rest);
            lemma_concat(seq![TAG_TUPLE] + uint_wire(items.len()), body + rest);
            lemma_concat(seq![TAG_TUPLE] + uint_wire(items.len()), body);
            lemma_round_trip_each(mode, shapes@, items, 0, rest);
            assert(items.skip(0) =~= items);
        },
        _ => {},
    }
}

/// A mapping is read back.
proof fn lemma_round_trip_mapping(
    mode: Mode,
    shape: Shape,
    items: Seq<(Datum, Datum)>,
    rest: Seq<u8>,
)
    requires
        conforms(mode, shape, Datum::Pairs(items)),
        valid(mode, shape),
        faithful(mode, shape, Datum::Pairs(items)),
    ensures
        parse(mode, shape, wire(mode, shape, Datum::Pairs(items)) + rest) == Ok::<
            (Datum, nat),
            Fault,
        >((Datum::Pairs(items), wire(mode, shape, Datum::Pairs(items)).len())),
    decreases items, 1nat, 0nat,
{
    let w = wire(mode, shape, Datum::Pairs(items));
    lemma_concat(w, rest);
    match shape {
        Shape::Mapping(key, value) => {
            let body = wire_pairs(mode, *key, *value, items, 0);
            lemma_counted_round_trip(TAG_MAP, items.len(), body + rest);
            lemma_concat_assoc(seq![TAG_MAP] + uint_wire(items.len()), body, rest);
            lemma_concat(seq![TAG_MAP] + uint_wire(items.len()), body + rest);
            lemma_concat(seq![TAG_MAP] + uint_wire(items.len()), body);
            lemma_round_trip_pairs(mode, shape, items, 0, rest);
            assert(items.skip(0) =~= items);
        },
        _ => {},
    }
}

/// A struct is read back.
proof fn lemma_round_trip_record(mode: Mode, shape: Shape, items: Seq<Datum>, rest: Seq<u8>)
    requires
        conforms(mode, shape, Datum::Record(items)),
        valid(mode, shape),
        faithful(mode, shape, Datum::Record(items)),
    ensures
        parse(mode, shape, wire(mode, shape, Datum::Record(items)) + rest) == Ok::<
            (Datum, nat),
            Fault,
        >((Datum::Record(items), wire(mode, shape, Datum::Record(items)).len())),
    decreases items, 2nat, 0nat,
{
    let w = wire(mode, shape, Datum::Record(items));
    let s = w + rest;
    lemma_concat(w, rest);
    match shape {
        Shape::Struct(def) => {
            if mode == Mode::Tagged {
                let body = wire_body(mode, def.fields, 0, items);
                lemma_round_trip_body(mode, def.fields, items, def.name@, None, 0, rest);
                lemma_concat_assoc(seq![struct_tag(def.fields)], body, rest);
                assert(s.skip(1) =~= body + rest);
            } else {
                lemma_round_trip_body(
                    mode,
                    def.fields,
                    items,
                    def.name@,
                    None,
                    struct_hash(*def),
                    rest,
                );
            }
        },
        _ => {},
    }
}

/// An enum variant is read back in tagged mode.
#[verifier::rlimit(60)]
proof fn lemma_round_trip_variant_tagged(
    def: EnumDef,
    index: usize,
    items: Seq<Datum>,
    rest: Seq<u8>,
)
    requires
        conforms(Mode::Tagged, Shape::Enum(Box::new(def)), Datum::Variant(index, items)),
        valid(Mode::Tagged, Shape::Enum(Box::new(def))),
        faithful(Mode::Tagged, Shape::Enum(Box::new(def)), Datum::Variant(index, items)),
    ensures
        parse(
            Mode::Tagged,
            Shape::Enum(Box::new(def)),
            wire(Mode::Tagged, Shape::Enum(Box::new(def)), Datum::Variant(index, items)) + rest,
        ) == Ok::<(Datum, nat), Fault>(
            (
                Datum::Variant(index, items),
                wire(Mode::Tagged, Shape::Enum(Box::new(def)), Datum::Variant(index, items)).len(),
            ),
        ),
    decreases items, 2nat, 0nat,
{
    let mode = Mode::Tagged;
    let shape = Shape::Enum(Box::new(def));
    let w = wire(mode, shape, Datum::Variant(index, items));
    let s = w + rest;
    let variant = def.variants@[index as int];
    let tag = enum_tag(variant.fields);
    let id = id_wire(variant.id);
    let body = wire_body(mode, variant.fields, 0, items);
    assert(w == seq![tag] + id + body);
    lemma_concat(w, rest);
    lemma_find_variant(mode, def.variants@, index as int, 0);
    lemma_round_trip_body(mode, variant.fields, items, def.name@, Some(variant.name@), 0, rest);
    lemma_id_round_trip(variant.id, body + rest);
    lemma_concat(id, body + rest);
    lemma_concat(id, body);
    assert(s.skip(1) =~= id + (body + rest));
    assert(tail(s, 1) == s.skip(1));
    lemma_skip_twice_tail(s, 1, id.len());
    assert(tail(s, 1 + id.len()) == body + rest);
    assert(parse_body(mode, variant.fields, body + rest, def.name@, Some(variant.name@), 0)
        == parse_body(
        mode,
        variant.fields,
        body + rest,
        def.name@,
        Some(variant.name@),
        enum_hash(def),
    ));
    assert(s[0] == tag);
    assert(parse_id(tail(s, 1)) == Ok::<(u64, nat), Fault>((variant.id, id.len())));
}

/// An enum variant is read back in packed mode.
#[verifier::rlimit(60)]
proof fn lemma_round_trip_variant_packed(
    def: EnumDef,
    index: usize,
    items: Seq<Datum>,
    rest: Seq<u8>,
)
    requires
        conforms(Mode::Packed, Shape::Enum(Box::new(def)), Datum::Variant(index, items)),
        valid(Mode::Packed, Shape::Enum(Box::new(def))),
        faithful(Mode::Packed, Shape::Enum(Box::new(def)), Datum::Variant(index, items)),
    ensures
        parse(
            Mode::Packed,
            Shape::Enum(Box::new(def)),
            wire(Mode::Packed, Shape::Enum(Box::new(def)), Datum::Variant(index, items)) + rest,
        ) == Ok::<(Datum, nat), Fault>(
            (
                Datum::Variant(index, items),
                wire(Mode::Packed, Shape::Enum(Box::new(def)), Datum::Variant(index, items)).len(),
            ),
        ),
    decreases items, 2nat, 0nat,
{
    let mode = Mode::Packed;
    let shape = Shape::Enum(Box::new(def));
    let w = wire(mode, shape, Datum::Variant(index, items));
    let s = w + rest;
    let variant = def.variants@[index as int];
    let id = id_wire(variant.id);
    let hash = enum_hash(def);
    let body = wire_body(mode, variant.fields, hash, items);
    assert(w == id + body);
    lemma_concat(w, rest);
    lemma_find_variant(mode, def.variants@, index as int, 0);
    lemma_round_trip_body(mode, variant.fields, items, def.name@, Some(variant.name@), hash, rest);
    lemma_id_round_trip(variant.id, body + rest);
    lemma_concat(id, body + rest);
    lemma_concat(id, body);
    assert(s =~= id + (body + rest));
    assert(tail(s, 0) =~= s);
    assert(tail(s, id.len()) == body + rest);
    assert(parse_id(tail(s, 0)) == Ok::<(u64, nat), Fault>((variant.id, id.len())));
    assert(find_variant(mode, def.variants@, variant.id, 0u8, 0) == index) by {
        lemma_find_variant_packed(def.variants@, index as int, 0, 0u8);
    }
}

/// In packed mode the form of a variant plays no part in finding it.
proof fn lemma_find_variant_packed(variants: Seq<VariantDef>, index: int, from: nat, tag: u8)
    requires
        variant_ids_valid(variants),
        0 <= index < variants.len(),
        from <= index,
    ensures
        find_variant(Mode::Packed, variants, variants[index].id, tag, from) == index,
    decreases variants.len() - from,
{
    if from < index {
        lemma_find_variant_packed(variants, index, from + 1, tag);
    }
}

/// An enum variant is read back.
proof fn lemma_round_trip_variant(
    mode: Mode,
    shape: Shape,
    index: usize,
    items: Seq<Datum>,
    rest: Seq<u8>,
)
    requires
        conforms(mode, shape, Datum::Variant(index, items)),
        valid(mode, shape),
        faithful(mode, shape, Datum::Variant(index, items)),
    ensures
        parse(mode, shape, wire(mode, shape, Datum::Variant(index, items)) + rest) == Ok::<
            (Datum, nat),
            Fault,
        >((Datum::Variant(index, items), wire(mode, shape, Datum::Variant(index, items)).len())),
    decreases items, 3nat, 0nat,
{
    match shape {
        Shape::Enum(def) => {
            assert(shape == Shape::Enum(Box::new(*def)));
            if mode == Mode::Tagged {
                lemma_round_trip_variant_tagged(*def, index, items, rest);
            } else {
                lemma_round_trip_variant_packed(*def, index, items, rest);
            }
        },
        _ => {},
    }
}

/// Every value of a shape takes at least one byte in tagged mode, but a
/// struct in packed mode may take none.
proof fn lemma_wire_nonempty(mode: Mode, shape: Shape, d: Datum)
    requires
        conforms(mode, shape, d),
    ensures
        mode == Mode::Tagged ==> wire(mode, shape, d).len() >= 1,
{
    if mode == Mode::Tagged {
        match d {
            Datum::Unsigned(n) => {
                lemma_uint_wire_len(n as nat);
            },
            Datum::Signed(v) => {
                if v >= 0 {
                    lemma_uint_wire_len(v as nat);
                }
            },
            Datum::Text(chars) => {
                lemma_text_round_trip(chars, Seq::empty());
            },
            _ => {},
        }
    }
}

/// A date, a time, a decimal or an identifier is read back.
proof fn lemma_round_trip_numbers(mode: Mode, shape: Shape, d: Datum, rest: Seq<u8>)
    requires
        conforms(mode, shape, d),
        d is DateTime || d is Date || d is Time || d is Decimal || d is Uuid,
    ensures
        parse(mode, shape, wire(mode, shape, d) + rest) == Ok::<(Datum, nat), Fault>(
            (d, wire(mode, shape, d).len()),
        ),
{
    match d {
        Datum::DateTime { seconds, nanos } => {
            lemma_datetime_round_trip(mode, seconds, nanos, rest);
        },
        Datum::Date { days } => {
            lemma_date_round_trip(days, rest);
        },
        Datum::Time { seconds, nanos } => {
            lemma_time_round_trip(seconds, nanos, rest);
        },
        Datum::Decimal { mantissa, scale } => {
            lemma_decimal_round_trip(mantissa, scale, rest);
        },
        Datum::Uuid(id) => {
            lemma_uuid_round_trip(mode, id, rest);
        },
        _ => {},
    }
}

/// Round trip: a value of a valid shape that comes back from its own
/// encoding as it was (see `faithful`) is read back from what it is written
/// as, whatever follows, and reading stops at what follows.
pub proof fn lemma_round_trip(mode: Mode, shape: Shape, d: Datum, rest: Seq<u8>)
    requires
        conforms(mode, shape, d),
        valid(mode, shape),
        faithful(mode, shape, d),
    ensures
        parse(mode, shape, wire(mode, shape, d) + rest) == Ok::<(Datum, nat), Fault>(
            (d, wire(mode, shape, d).len()),
        ),
    decreases d, 4nat, 0nat,
{
    match d {
        Datum::Maybe(Some(inner)) => lemma_round_trip_some(mode, shape, *inner, rest),
        Datum::List(items) => lemma_round_trip_list(mode, shape, items, rest),
        Datum::Tuple(items) => lemma_round_trip_tuple(mode, shape, items, rest),
        Datum::Pairs(items) => lemma_round_trip_mapping(mode, shape, items, rest),
        Datum::Record(items) => lemma_round_trip_record(mode, shape, items, rest),
        Datum::Variant(index, items) => lemma_round_trip_variant(mode, shape, index, items, rest),
        Datum::DateTime { .. } | Datum::Date { .. } | Datum::Time { .. } | Datum::Decimal { .. }
        | Datum::Uuid(_) => lemma_round_trip_numbers(mode, shape, d, rest),
        Datum::Json(tree) => lemma_json_round_trip(tree, rest),
        _ => lemma_round_trip_leaf(mode, shape, d, rest),
    }
}

/// Round trip through the codec traits: what `encode` wrote for a value of
/// any type is decoded as that value, whatever follows, and decoding stops
/// at what follows. That the value is sound is what a successful `encode`
/// says of it.
pub proof fn lemma_typed_round_trip<T: Shaped>(v: T, rest: Seq<u8>)
    requires
        sound(Mode::Tagged, T::shape(), v.datum()),
    ensures
        parse(Mode::Tagged, T::shape(), wire(Mode::Tagged, T::shape(), v.datum()) + rest) == Ok::<
            (Datum, nat),
            Fault,
        >((v.datum(), wire(Mode::Tagged, T::shape(), v.datum()).len())),
{
    T::lemma_valid();
    lemma_round_trip(Mode::Tagged, T::shape(), v.datum(), rest);
}

/// The same for `pack` and `unpack`.
pub proof fn lemma_typed_packed_round_trip<T: Shaped>(v: T, rest: Seq<u8>)
    requires
        sound(Mode::Packed, T::shape(), v.datum()),
    ensures
        parse(Mode::Packed, T::shape(), wire(Mode::Packed, T::shape(), v.datum()) + rest) == Ok::<
            (Datum, nat),
            Fault,
        >((v.datum(), wire(Mode::Packed, T::shape(), v.datum()).len())),
{
    T::lemma_valid();
    lemma_round_trip(Mode::Packed, T::shape(), v.datum(), rest);
}

// ---------------------------------------------------------------------
// Structs written under one declaration are read under another
// ---------------------------------------------------------------------
/// Whether `origin` says where the value of each field of the reading
/// declaration comes from: from the field of the writing declaration that
/// has its identifier and is written, or from nowhere.
///
/// A field that takes a value must be read, must have the payload shape of
/// the field that it comes from, and what it comes from must come back from
/// its own encoding as it was. A field that takes none is not read, or no
/// field that is written has its identifier.
pub open spec fn arrives(
    writing: Seq<FieldDef>,
    items: Seq<Datum>,
    reading: Seq<FieldDef>,
    origin: Seq<Option<nat>>,
) -> bool {
    &&& origin.len() == reading.len()
    &&& forall|j: int|
        0 <= j < reading.len() ==> match #[trigger] origin[j] {
            Some(i) => {
                &&& i < writing.len()
                &&& writing[i as int].attrs.id == reading[j].attrs.id
                &&& !omitted(writing[i as int], items[i as int])
                &&& !reading[j].attrs.skip_decode
                &&& payload_shape(reading[j].shape) == payload_shape(writing[i as int].shape)
                &&& faithful_payload(writing[i as int], items[i as int])
            },
            None => reading[j].attrs.skip_decode || unsent(writing, items, reading[j].attrs.id),
        }
}

/// No field that is written has the identifier `id`.
pub open spec fn unsent(writing: Seq<FieldDef>, items: Seq<Datum>, id: u64) -> bool {
    forall|i: int|
        0 <= i < writing.len() && !omitted(writing[i], #[trigger] items[i]) ==> writing[i].attrs.id
            != id
}

/// What arrives for each field of the reading declaration.
pub open spec fn arrived(
    writing: Seq<FieldDef>,
    items: Seq<Datum>,
    origin: Seq<Option<nat>>,
) -> Seq<Option<Datum>> {
    Seq::new(
        origin.len(),
        |j: int|
            match origin[j] {
                Some(i) => Some(payload_of(writing[i as int], items[i as int])),
                None => None,
            },
    )
}

/// What has arrived once the fields before index `from` have been read.
pub open spec fn arrived_before(
    writing: Seq<FieldDef>,
    items: Seq<Datum>,
    origin: Seq<Option<nat>>,
    from: nat,
) -> Seq<Option<Datum>> {
    Seq::new(
        origin.len(),
        |j: int|
            match origin[j] {
                Some(i) => if i < from {
                    Some(payload_of(writing[i as int], items[i as int]))
                } else {
                    None
                },
                None => None,
            },
    )
}

/// The field that is found for an identifier has it and is read.
proof fn lemma_found_field(fields: Seq<FieldDef>, id: u64, from: nat)
    ensures
        find_field(fields, id, from) <= fields.len(),
        find_field(fields, id, from) < fields.len() ==> from <= find_field(fields, id, from)
            && fields[find_field(fields, id, from) as int].attrs.id == id && !fields[find_field(
            fields,
            id,
            from,
        ) as int].attrs.skip_decode,
    decreases fields.len() - from,
{
    if from < fields.len() {
        lemma_found_field(fields, id, from + 1);
    }
}

/// What the reading declaration receives is what `origin` says arrives.
proof fn lemma_received_arrived(
    writing: Seq<FieldDef>,
    items: Seq<Datum>,
    reading: Seq<FieldDef>,
    origin: Seq<Option<nat>>,
    from: nat,
)
    requires
        items.len() == writing.len(),
        from <= items.len(),
        field_ids_valid(writing),
        field_ids_valid(reading),
        arrives(writing, items, reading, origin),
    ensures
        received(
            writing,
            items,
            reading,
            from,
            arrived_before(writing, items, origin, from),
        ) == arrived(writing, items, origin),
    decreases items.len() - from,
{
    let slots = arrived_before(writing, items, origin, from);
    if from < items.len() {
        let field = writing[from as int];
        let d = items[from as int];
        let next = arrived_before(writing, items, origin, from + 1);
        if omitted(field, d) {
            assert(next =~= slots) by {
                assert forall|j: int| 0 <= j < origin.len() implies next[j] == slots[j] by {
                    assert(origin[j] != Some(from));
                }
            }
        } else {
            let found = find_field(reading, field.attrs.id, 0);
            lemma_found_field(reading, field.attrs.id, 0);
            let after = deliver(reading, slots, field.attrs.id, payload_of(field, d));
            assert(after =~= next) by {
                assert forall|j: int| 0 <= j < origin.len() implies after[j] == next[j] by {
                    match origin[j] {
                        Some(i) => {
                            if i == from {
                                lemma_find_own(reading, j, 0);
                            } else if j == found {
                                assert(writing[i as int].attrs.id == field.attrs.id);
                            }
                        },
                        None => {
                            if j == found {
                                assert(!reading[j].attrs.skip_decode);
                                assert(!omitted(writing[from as int], items[from as int]));
                            }
                        },
                    }
                }
            }
        }
        lemma_received_arrived(writing, items, reading, origin, from + 1);
    } else {
        assert(slots =~= arrived(writing, items, origin));
    }
}

/// Schema evolution: a struct with named fields written under one
/// declaration and read under another.
///
/// Given where the value of each field of the reading declaration comes
/// from (see `arrives`), reading fails with the first required field that
/// takes no value, naming it and the struct, and otherwise yields for each
/// field what arrived for it, or its zero value (absence for an optional
/// field) where nothing arrived. Fields of the writing declaration that the
/// reading one does not know are skipped.
///
/// A reading declaration that has dropped a field still reads what an older
/// one wrote; one that has gained a field with a default policy reads what
/// an older one wrote, with the zero value in the new field; and one that
/// has gained a required field fails on what an older one wrote.
pub proof fn lemma_schema_evolution(
    writing: StructDef,
    reading: StructDef,
    items: Seq<Datum>,
    origin: Seq<Option<nat>>,
    rest: Seq<u8>,
)
    requires
        writing.fields is Named,
        reading.fields is Named,
        conforms(Mode::Tagged, Shape::Struct(Box::new(writing)), Datum::Record(items)),
        valid(Mode::Tagged, Shape::Struct(Box::new(writing))),
        field_ids_valid(reading.fields.list()),
        arrives(writing.fields.list(), items, reading.fields.list(), origin),
    ensures
        parse(
            Mode::Tagged,
            Shape::Struct(Box::new(reading)),
            wire(Mode::Tagged, Shape::Struct(Box::new(writing)), Datum::Record(items)) + rest,
        ) == ({
            let slots = arrived(writing.fields.list(), items, origin);
            let missing = first_missing(reading.fields.list(), slots, 0);
            if missing < reading.fields.list().len() {
                Err::<(Datum, nat), Fault>(
                    missing_fault(
                        reading.name@,
                        None,
                        reading.fields.list()[missing as int].name@,
                    ),
                )
            } else {
                Ok::<(Datum, nat), Fault>(
                    (
                        Datum::Record(assemble(reading.fields.list(), slots)),
                        wire(
                            Mode::Tagged,
                            Shape::Struct(Box::new(writing)),
                            Datum::Record(items),
                        ).len(),
                    ),
                )
            }
        }),
{
    let w_fields = writing.fields.list();
    let r_fields = reading.fields.list();
    let w = wire(Mode::Tagged, Shape::Struct(Box::new(writing)), Datum::Record(items));
    let body = wire_named(w_fields, items, 0);
    let s = w + rest;
    let blank = empty_slots(r_fields.len());
    assert(valid_fields(Mode::Tagged, writing.fields));
    assert(field_ids_valid(w_fields));
    assert(wire_body(Mode::Tagged, writing.fields, 0, items) == body);
    assert(struct_tag(writing.fields) == TAG_STRUCT_NAMED);
    assert(w == seq![TAG_STRUCT_NAMED] + body);
    lemma_concat(w, rest);
    assert(s.skip(1) =~= body + rest);
    assert forall|i: int|
        0 <= i < items.len() && i < w_fields.len() && !omitted(w_fields[i], #[trigger] items[i])
            && find_field(r_fields, w_fields[i].attrs.id, 0) < r_fields.len() implies {
        &&& payload_shape(
            r_fields[find_field(r_fields, w_fields[i].attrs.id, 0) as int].shape,
        ) == payload_shape(w_fields[i].shape)
        &&& faithful_payload(w_fields[i], items[i])
    } by {
        let j = find_field(r_fields, w_fields[i].attrs.id, 0) as int;
        lemma_found_field(r_fields, w_fields[i].attrs.id, 0);
        match origin[j] {
            Some(k) => {
                assert(w_fields[k as int].attrs.id == w_fields[i].attrs.id);
                if k < i {
                    assert(w_fields[i].attrs.id != w_fields[k as int].attrs.id);
                }
                if i < k {
                    assert(w_fields[k as int].attrs.id != w_fields[i].attrs.id);
                }
                assert(k == i);
            },
            None => {
                assert(!r_fields[j].attrs.skip_decode);
                assert(unsent(w_fields, items, r_fields[j].attrs.id));
                assert(!omitted(w_fields[i], items[i]));
                assert(false);
            },
        }
    }
    assert(conform_fields(Mode::Tagged, w_fields, items, 0));
    assert forall|i: int| 0 <= i < w_fields.len() implies valid(
        Mode::Tagged,
        (#[trigger] w_fields[i]).shape,
    ) by {
        assert(w_fields[i] == writing.fields->Named_0@[i]);
    }
    lemma_named_evolution(w_fields, items, r_fields, 0, blank, rest);
    assert(blank =~= arrived_before(w_fields, items, origin, 0));
    lemma_received_arrived(w_fields, items, r_fields, origin, 0);
    let slots = arrived(w_fields, items, origin);
    let missing = first_missing(r_fields, slots, 0);
    assert(parse_named(r_fields, body + rest, blank) == Ok::<
        (Seq<Option<Datum>>, nat),
        Fault,
    >((slots, body.len())));
    assert(parse_body(Mode::Tagged, reading.fields, body + rest, reading.name@, None, 0) == (if missing
        < r_fields.len() {
        Err::<(Seq<Datum>, nat), Fault>(
            missing_fault(reading.name@, None, r_fields[missing as int].name@),
        )
    } else {
        Ok::<(Seq<Datum>, nat), Fault>((assemble(r_fields, slots), body.len()))
    }));
    assert(struct_tag(reading.fields) == TAG_STRUCT_NAMED);
    assert(s[0] == TAG_STRUCT_NAMED);
}

// ---------------------------------------------------------------------
// Floats, negative numbers, and the guard of packed structs
// ---------------------------------------------------------------------
/// Floats cross over in one direction only: a 64-bit float is read into a
/// 32-bit float slot, coming back as it is for the caller to narrow, and a
/// 32-bit float is refused by a 64-bit float slot.
pub proof fn lemma_float_cross_decode(single: u32, double: u64, rest: Seq<u8>)
    ensures
        parse(Mode::Tagged, Shape::F32, wire(Mode::Tagged, Shape::F64, Datum::F64(double)) + rest)
            == Ok::<(Datum, nat), Fault>((Datum::F64(double), 9)),
        parse(Mode::Tagged, Shape::F64, wire(Mode::Tagged, Shape::F32, Datum::F32(single)) + rest)
            == Err::<(Datum, nat), Fault>(Fault::Decode),
{
    lemma_f64_round_trip(Mode::Tagged, double, rest);
    lemma_le_bytes_len(double as nat, 8);
    lemma_le_bytes_len(single as nat, 4);
    lemma_concat(wire(Mode::Tagged, Shape::F32, Datum::F32(single)), rest);
}

/// The magnitude that is written for a negative number, `-(v + 1)`, is the
/// number with its bits inverted.
pub proof fn lemma_inverted_magnitude(v: i64)
    requires
        v < 0,
    ensures
        (-(v + 1)) as u64 == !(v as u64),
{
    assert(v < 0 ==> (-(v + 1)) as u64 == !(v as u64)) by (bit_vector);
}

/// The guard of packed structs: packed data of a struct with named fields
/// is refused by a declaration with another structure hash, whatever the
/// fields hold.
pub proof fn lemma_pack_guard(
    writing: StructDef,
    reading: StructDef,
    items: Seq<Datum>,
    rest: Seq<u8>,
)
    requires
        writing.fields is Named,
        reading.fields is Named,
        struct_hash(writing) != struct_hash(reading),
    ensures
        parse(
            Mode::Packed,
            Shape::Struct(Box::new(reading)),
            wire(Mode::Packed, Shape::Struct(Box::new(writing)), Datum::Record(items)) + rest,
        ) == Err::<(Datum, nat), Fault>(
            hash_fault(reading.name@, None, struct_hash(reading), struct_hash(writing)),
        ),
{
    let hash = struct_hash(writing);
    let head = le_bytes(hash as nat, 8);
    let body = wire_fields(Mode::Packed, writing.fields->Named_0@, items, 0);
    let w = wire(Mode::Packed, Shape::Struct(Box::new(writing)), Datum::Record(items));
    let s = w + rest;
    assert(wire_body(Mode::Packed, writing.fields, hash, items) == head + body);
    assert(w == head + body);
    lemma_radix_values();
    lemma_le_bytes_len(hash as nat, 8);
    lemma_le_value_of_bytes(hash as nat, 8);
    lemma_concat_assoc(head, body, rest);
    lemma_concat(head, body + rest);
    assert(s.take(8) == head);
    assert(parse_body(
        Mode::Packed,
        reading.fields,
        s,
        reading.name@,
        None,
        struct_hash(reading),
    ) == Err::<(Seq<Datum>, nat), Fault>(
        hash_fault(reading.name@, None, struct_hash(reading), hash),
    ));
}

/// The first item with an identifier is found where it stands: nothing
/// before it has the identifier.
pub proof fn lemma_first_with_id(ids: Seq<u64>, id: u64, upto: nat, from: nat)
    requires
        from <= upto <= ids.len(),
    ensures
        from <= first_with_id(ids, id, upto, from) <= upto,
        first_with_id(ids, id, upto, from) < upto ==> ids[first_with_id(ids, id, upto, from) as int]
            == id,
        forall|k: int| from <= k < first_with_id(ids, id, upto, from) ==> ids[k] != id,
    decreases upto - from,
{
    if from < upto && ids[from as int] != id {
        lemma_first_with_id(ids, id, upto, from + 1);
    }
}

/// The first defect is a defect, and nothing before it is one.
pub proof fn lemma_first_defect(ids: Seq<u64>, from: nat)
    requires
        from <= ids.len(),
    ensures
        from <= first_defect(ids, from) <= ids.len(),
        first_defect(ids, from) < ids.len() ==> defect_at(ids, first_defect(ids, from)),
        forall|k: nat| from <= k < first_defect(ids, from) ==> !#[trigger] defect_at(ids, k),
    decreases ids.len() - from,
{
    if from < ids.len() && !defect_at(ids, from) {
        lemma_first_defect(ids, from + 1);
    }
}

/// Whether a fault names what is wrong with the identifiers of the fields
/// of `owner`: a field whose identifier is 0, or the identifier and both
/// fields, the earlier one first, of two fields that have the same.
pub open spec fn names_field_conflict(owner: Seq<char>, fields: Seq<FieldDef>, f: SchemaFault) -> bool {
    match f {
        SchemaFault::ZeroFieldId { owner: o, field } => o == owner && exists|i: int|
            0 <= i < fields.len() && (#[trigger] fields[i]).attrs.id == 0 && fields[i].name@
                == field,
        SchemaFault::DuplicateFieldId { id, owner: o, first, second } => o == owner && exists|
            i: int,
            j: int,
        |
            0 <= j < i < fields.len() && (#[trigger] fields[i]).attrs.id == id && (
            #[trigger] fields[j]).attrs.id == id && fields[j].name@ == first && fields[i].name@
                == second,
        _ => false,
    }
}

/// The same for the variants of the enum `owner`.
pub open spec fn names_variant_conflict(
    owner: Seq<char>,
    variants: Seq<VariantDef>,
    f: SchemaFault,
) -> bool {
    match f {
        SchemaFault::ZeroVariantId { owner: o, variant } => o == owner && exists|i: int|
            0 <= i < variants.len() && (#[trigger] variants[i]).id == 0 && variants[i].name@
                == variant,
        SchemaFault::DuplicateVariantId { id, owner: o, first, second } => o == owner && exists|
            i: int,
            j: int,
        |
            0 <= j < i < variants.len() && (#[trigger] variants[i]).id == id && (
            #[trigger] variants[j]).id == id && variants[j].name@ == first && variants[i].name@
                == second,
        _ => false,
    }
}

/// The identifiers of named fields are found wrong exactly when one is 0
/// or repeated, and the fault then names the field, or the identifier and
/// both fields that have it.
pub proof fn lemma_field_fault_names_conflict(owner: Seq<char>, fields: Seq<FieldDef>)
    ensures
        field_id_fault(owner, fields) is None <==> field_ids_valid(fields),
        field_id_fault(owner, fields) matches Some(f) ==> names_field_conflict(owner, fields, f),
{
    let ids = field_ids(fields);
    let at = first_defect(ids, 0);
    lemma_first_defect(ids, 0);
    if at < fields.len() {
        assert(ids[at as int] == fields[at as int].attrs.id);
        if ids[at as int] != 0 {
            let j = first_with_id(ids, ids[at as int], at, 0);
            lemma_first_with_id(ids, ids[at as int], at, 0);
            assert(ids[j as int] == fields[j as int].attrs.id);
            assert(fields[at as int].attrs.id == fields[j as int].attrs.id);
        }
    } else {
        assert forall|i: int| 0 <= i < fields.len() implies (#[trigger] fields[i]).attrs.id
            != 0 by {
            assert(!defect_at(ids, i as nat));
        }
        assert forall|i: int, j: int| 0 <= j < i < fields.len() implies (
        #[trigger] fields[i]).attrs.id != (#[trigger] fields[j]).attrs.id by {
            assert(!defect_at(ids, i as nat));
            lemma_first_with_id(ids, ids[i], i as nat, 0);
            assert(ids[j] != ids[i]);
        }
    }
}

/// The identifiers of variants are found wrong exactly when one is 0 or
/// repeated, and the fault then names the variant, or the identifier and
/// both variants that have it.
pub proof fn lemma_variant_fault_names_conflict(owner: Seq<char>, variants: Seq<VariantDef>)
    ensures
        variant_id_fault(owner, variants) is None <==> variant_ids_valid(variants),
        variant_id_fault(owner, variants) matches Some(f) ==> names_variant_conflict(
            owner,
            variants,
            f,
        ),
{
    let ids = variant_ids(variants);
    let at = first_defect(ids, 0);
    lemma_first_defect(ids, 0);
    if at < variants.len() {
        assert(ids[at as int] == variants[at as int].id);
        if ids[at as int] != 0 {
            let j = first_with_id(ids, ids[at as int], at, 0);
            lemma_first_with_id(ids, ids[at as int], at, 0);
            assert(ids[j as int] == variants[j as int].id);
            assert(variants[at as int].id == variants[j as int].id);
        }
    } else {
        assert forall|i: int| 0 <= i < variants.len() implies (#[trigger] variants[i]).id != 0 by {
            assert(!defect_at(ids, i as nat));
        }
        assert forall|i: int, j: int| 0 <= j < i < variants.len() implies (
        #[trigger] variants[i]).id != (#[trigger] variants[j]).id by {
            assert(!defect_at(ids, i as nat));
            lemma_first_with_id(ids, ids[i], i as nat, 0);
            assert(ids[j] != ids[i]);
        }
    }
}

/// Nothing is found wrong with the shapes from `from` on exactly when each
/// of them is valid.
proof fn lemma_each_fault(mode: Mode, shapes: Seq<Shape>, from: nat)
    requires
        from <= shapes.len(),
    ensures
        each_fault(mode, shapes, from) is None <==> forall|i: int|
            from <= i < shapes.len() ==> valid(mode, #[trigger] shapes[i]),
    decreases shapes, 0nat, shapes.len() - from,
{
    if from < shapes.len() {
        lemma_fault_iff_invalid(mode, shapes[from as int]);
        lemma_each_fault(mode, shapes, from + 1);
    }
}

/// The same for the shapes of fields.
proof fn lemma_listed_fault(mode: Mode, fields: Seq<FieldDef>, from: nat)
    requires
        from <= fields.len(),
    ensures
        listed_fault(mode, fields, from) is None <==> forall|i: int|
            from <= i < fields.len() ==> valid(mode, (#[trigger] fields[i]).shape),
    decreases fields, 0nat, fields.len() - from,
{
    if from < fields.len() {
        lemma_fault_iff_invalid(mode, fields[from as int].shape);
        lemma_listed_fault(mode, fields, from + 1);
    }
}

/// Nothing is found wrong with the fields of a struct or variant exactly
/// when they are valid.
proof fn lemma_fields_fault(mode: Mode, owner: Seq<char>, fields: Fields)
    ensures
        fields_fault(mode, owner, fields) is None <==> valid_fields(mode, fields),
    decreases fields, 1nat, 0nat,
{
    match fields {
        Fields::Unit => {},
        Fields::Named(list) => {
            lemma_field_fault_names_conflict(owner, list@);
            lemma_listed_fault(mode, list@, 0);
        },
        Fields::Unnamed(list) => {
            lemma_listed_fault(mode, list@, 0);
        },
    }
}

/// Nothing is found wrong with the fields of the variants from `from` on
/// exactly when the fields of each are valid.
proof fn lemma_variants_fault(mode: Mode, owner: Seq<char>, variants: Seq<VariantDef>, from: nat)
    requires
        from <= variants.len(),
    ensures
        variants_fault(mode, owner, variants, from) is None <==> forall|i: int|
            from <= i < variants.len() ==> valid_fields(mode, (#[trigger] variants[i]).fields),
    decreases variants, 0nat, variants.len() - from,
{
    if from < variants.len() {
        lemma_fields_fault(mode, owner, variants[from as int].fields);
        lemma_variants_fault(mode, owner, variants, from + 1);
    }
}

/// A shape is valid for a mode exactly when nothing is found wrong with it,
/// and a declaration can be derived for exactly when nothing is found wrong
/// with it: every invalid declaration has its fault.
pub proof fn lemma_fault_iff_invalid(mode: Mode, shape: Shape)
    ensures
        shape_fault(mode, shape) is None <==> valid(mode, shape),
        declaration_fault(mode, shape) is None <==> is_declaration(shape) && valid(mode, shape),
    decreases shape, 1nat, 0nat,
{
    match shape {
        Shape::Optional(inner) => lemma_fault_iff_invalid(mode, *inner),
        Shape::Vector(inner) => lemma_fault_iff_invalid(mode, *inner),
        Shape::Array(inner, _) => lemma_fault_iff_invalid(mode, *inner),
        Shape::Tuple(shapes) => lemma_each_fault(mode, shapes@, 0),
        Shape::Mapping(key, value) => {
            lemma_fault_iff_invalid(mode, *key);
            lemma_fault_iff_invalid(mode, *value);
        },
        Shape::Struct(def) => lemma_fields_fault(mode, def.name@, def.fields),
        Shape::Enum(def) => {
            lemma_variant_fault_names_conflict(def.name@, def.variants@);
            lemma_variants_fault(mode, def.name@, def.variants@, 0);
        },
        _ => {},
    }
}

/// A struct in which two named fields have the same identifier is not valid
/// for tagged mode, so nothing is ever encoded or decoded under it.
pub proof fn lemma_repeated_id_is_invalid(def: StructDef, i: int, j: int)
    requires
        def.fields is Named,
        0 <= j < i < def.fields.list().len(),
        def.fields.list()[i].attrs.id == def.fields.list()[j].attrs.id,
    ensures
        !valid(Mode::Tagged, Shape::Struct(Box::new(def))),
{
    let fields = def.fields->Named_0@;
    assert(fields[i].attrs.id == fields[j].attrs.id);
    assert(!field_ids_valid(fields));
    assert(!valid_fields(Mode::Tagged, def.fields));
}

/// A struct in which two named fields have the same identifier is refused
/// in tagged mode with a fault that names what is wrong with the
/// identifiers: the identifier and both fields that have it, or a field
/// whose identifier is 0. This holds whether or not the fields are written.
pub proof fn lemma_repeated_id_fault(def: StructDef, i: int, j: int)
    requires
        def.fields is Named,
        !def.disable_encode,
        0 <= j < i < def.fields.list().len(),
        def.fields.list()[i].attrs.id == def.fields.list()[j].attrs.id,
    ensures
        declaration_fault(Mode::Tagged, Shape::Struct(Box::new(def))) matches Some(f)
            && names_field_conflict(def.name@, def.fields.list(), f),
{
    let fields = def.fields->Named_0@;
    assert(fields[i].attrs.id == fields[j].attrs.id);
    assert(!field_ids_valid(fields));
    lemma_field_fault_names_conflict(def.name@, fields);
    assert(fields_fault(Mode::Tagged, def.name@, def.fields) == field_id_fault(def.name@, fields));
}

/// An enum in which two variants have the same identifier is refused in
/// either mode with a fault that names what is wrong with the identifiers:
/// the identifier and both variants that have it, or a variant whose
/// identifier is 0.
pub proof fn lemma_repeated_variant_id_fault(mode: Mode, def: EnumDef, i: int, j: int)
    requires
        enabled(mode, def.disable_encode, def.disable_pack),
        0 <= j < i < def.variants@.len(),
        def.variants@[i].id == def.variants@[j].id,
    ensures
        declaration_fault(mode, Shape::Enum(Box::new(def))) matches Some(f)
            && names_variant_conflict(def.name@, def.variants@, f),
{
    assert(!variant_ids_valid(def.variants@));
    lemma_variant_fault_names_conflict(def.name@, def.variants@);
}

/// A struct in which a named field has the identifier 0, the terminator, is
/// not valid for tagged mode.
pub proof fn lemma_zero_id_is_invalid(def: StructDef, i: int)
    requires
        def.fields is Named,
        0 <= i < def.fields.list().len(),
        def.fields.list()[i].attrs.id == 0,
    ensures
        !valid(Mode::Tagged, Shape::Struct(Box::new(def))),
{
    let fields = def.fields->Named_0@;
    assert(fields[i].attrs.id == 0);
    assert(!field_ids_valid(fields));
    assert(!valid_fields(Mode::Tagged, def.fields));
}

/// An enum in which two variants have the same identifier is not valid in
/// either mode.
pub proof fn lemma_repeated_variant_id_is_invalid(mode: Mode, def: EnumDef, i: int, j: int)
    requires
        0 <= j < i < def.variants@.len(),
        def.variants@[i].id == def.variants@[j].id,
    ensures
        !valid(mode, Shape::Enum(Box::new(def))),
{
    assert(!variant_ids_valid(def.variants@));
}

} // verus!
