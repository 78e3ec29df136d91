//! JSON trees: null, booleans, numbers, text, arrays and objects.
//!
//! A number is an unsigned or a signed 64-bit integer or a 64-bit float,
//! and says on the wire which it is. An object is its entries in the order
//! they are met.

use bytes::{Bytes, BytesMut};
use vstd::prelude::*;
use vstd::utf8::encode_utf8;
use crate::buffer::{get_u8, put_u64_le, put_u8, remaining, unread, written};
use crate::codec::{Decoder, Encoder, Float64};
use crate::error::{EncoderError, Fault};
use crate::le::le_bytes;
use crate::model::{Datum, Mode};
use crate::spec::{
    bool_wire, lemma_skip_twice, parse_bool, parse_f64, parse_text, tail, text_wire, word_bits,
};
use crate::tag::{
    TAG_F64, TAG_JSON_ARRAY, TAG_JSON_BOOL, TAG_JSON_NULL, TAG_JSON_NUMBER, TAG_JSON_OBJECT,
    TAG_JSON_STRING,
};
use crate::text::with_number;
use crate::varint::{
    int_wire, lemma_parse_int_bounds, lemma_parse_uint_bounds, parse_int, parse_uint, uint_wire,
};

verus! {

/// A JSON number.
#[derive(Debug, Clone, Copy, PartialEq, Eq)]
pub enum JsonNumber {
    Unsigned(u64),
    Signed(i64),
    /// The bit pattern of a 64-bit float.
    Float(u64),
}

/// A JSON tree.
#[derive(Debug, PartialEq, Eq)]
pub enum JsonValue {
    Null,
    Bool(bool),
    Number(JsonNumber),
    Text(String),
    Array(Vec<JsonValue>),
    /// The entries of an object, in order.
    Object(Vec<(String, JsonValue)>),
}

/// What a [`JsonValue`] is, over mathematical sequences.
pub enum JsonDatum {
    Null,
    Bool(bool),
    Number(JsonNumber),
    Text(Seq<char>),
    Array(Seq<JsonDatum>),
    Object(Seq<(Seq<char>, JsonDatum)>),
}

/// What a JSON tree is, over mathematical sequences.
pub open spec fn json_of(v: JsonValue) -> JsonDatum
    decreases v,
{
    match v {
        JsonValue::Null => JsonDatum::Null,
        JsonValue::Bool(b) => JsonDatum::Bool(b),
        JsonValue::Number(n) => JsonDatum::Number(n),
        JsonValue::Text(s) => JsonDatum::Text(s@),
        JsonValue::Array(items) => JsonDatum::Array(
            Seq::new(
                items@.len(),
                |i: int|
                    if 0 <= i < items@.len() {
                        json_of(items@[i])
                    } else {
                        JsonDatum::Null
                    },
            ),
        ),
        JsonValue::Object(entries) => JsonDatum::Object(
            Seq::new(
                entries@.len(),
                |i: int|
                    if 0 <= i < entries@.len() {
                        (entries@[i].0@, json_of(entries@[i].1))
                    } else {
                        (Seq::empty(), JsonDatum::Null)
                    },
            ),
        ),
    }
}

impl View for JsonValue {
    type V = JsonDatum;

    open spec fn view(&self) -> JsonDatum {
        json_of(*self)
    }
}

/// The data of a sequence of JSON trees.
pub open spec fn json_items(items: Seq<JsonValue>) -> Seq<JsonDatum> {
    Seq::new(items.len(), |i: int| json_of(items[i]))
}

/// The data of the entries of a JSON object.
pub open spec fn json_entries(entries: Seq<(String, JsonValue)>) -> Seq<(Seq<char>, JsonDatum)> {
    Seq::new(entries.len(), |i: int| (entries[i].0@, json_of(entries[i].1)))
}

/// The view of an array is built from the views of its items.
pub proof fn lemma_json_array_view(items: Vec<JsonValue>)
    ensures
        JsonValue::Array(items)@ == JsonDatum::Array(json_items(items@)),
{
    assert(json_of(JsonValue::Array(items))->Array_0 =~= json_items(items@));
}

/// The view of an object is built from the views of its entries.
pub proof fn lemma_json_object_view(entries: Vec<(String, JsonValue)>)
    ensures
        JsonValue::Object(entries)@ == JsonDatum::Object(json_entries(entries@)),
{
    assert(json_of(JsonValue::Object(entries))->Object_0 =~= json_entries(entries@));
}

/// A JSON number: the marker of its kind, 0 for unsigned, 1 for signed, 2
/// for a float, and the number as a value of that kind.
pub open spec fn json_number_wire(n: JsonNumber) -> Seq<u8> {
    match n {
        JsonNumber::Unsigned(u) => seq![0u8] + uint_wire(u as nat),
        JsonNumber::Signed(i) => seq![1u8] + int_wire(i as int),
        JsonNumber::Float(bits) => seq![2u8, TAG_F64] + le_bytes(bits as nat, 8),
    }
}

/// The trees from index `from` on, one after the other.
pub open spec fn json_wire_all(items: Seq<JsonDatum>, from: nat) -> Seq<u8>
    decreases items, 0nat, items.len() - from,
{
    if from >= items.len() {
        Seq::empty()
    } else {
        json_wire(items[from as int]) + json_wire_all(items, from + 1)
    }
}

/// The entries from index `from` on: key, tree, key, tree.
pub open spec fn json_wire_entries(entries: Seq<(Seq<char>, JsonDatum)>, from: nat) -> Seq<u8>
    decreases entries, 0nat, entries.len() - from,
{
    if from >= entries.len() {
        Seq::empty()
    } else {
        text_wire(entries[from as int].0) + json_wire(entries[from as int].1) + json_wire_entries(
            entries,
            from + 1,
        )
    }
}

/// The bytes that a JSON tree is written as: the tag of its kind, then a
/// boolean tag, a number, text, or a count and the parts.
pub open spec fn json_wire(d: JsonDatum) -> Seq<u8>
    decreases d, 1nat, 0nat,
{
    match d {
        JsonDatum::Null => seq![TAG_JSON_NULL],
        JsonDatum::Bool(b) => seq![TAG_JSON_BOOL] + bool_wire(b),
        JsonDatum::Number(n) => seq![TAG_JSON_NUMBER] + json_number_wire(n),
        JsonDatum::Text(chars) => seq![TAG_JSON_STRING] + text_wire(chars),
        JsonDatum::Array(items) => seq![TAG_JSON_ARRAY] + uint_wire(items.len()) + json_wire_all(
            items,
            0,
        ),
        JsonDatum::Object(entries) => seq![TAG_JSON_OBJECT] + uint_wire(entries.len())
            + json_wire_entries(entries, 0),
    }
}

/// Whether the lengths in a JSON tree fit the pointer-sized integer that
/// announces them.
pub open spec fn json_conforms(d: JsonDatum) -> bool
    decreases d,
{
    match d {
        JsonDatum::Text(chars) => encode_utf8(chars).len() <= usize::MAX,
        JsonDatum::Array(items) => items.len() <= usize::MAX && forall|i: int|
            0 <= i < items.len() ==> json_conforms(#[trigger] items[i]),
        JsonDatum::Object(entries) => entries.len() <= usize::MAX && forall|i: int|
            0 <= i < entries.len() ==> encode_utf8((#[trigger] entries[i]).0).len() <= usize::MAX
                && json_conforms(entries[i].1),
        _ => true,
    }
}

/// Reading a JSON number whose tag has been consumed.
pub open spec fn parse_json_number(s: Seq<u8>) -> Result<(JsonNumber, nat), Fault> {
    if s.len() == 0 {
        Err(Fault::InsufficientData)
    } else if s[0] == 0 {
        match parse_uint(s.skip(1), 64) {
            Ok((u, n)) => Ok((JsonNumber::Unsigned(u as u64), n + 1)),
            Err(f) => Err(f),
        }
    } else if s[0] == 1 {
        match parse_int(s.skip(1), 64) {
            Ok((i, n)) => Ok((JsonNumber::Signed(i as i64), n + 1)),
            Err(f) => Err(f),
        }
    } else if s[0] == 2 {
        match parse_f64(Mode::Tagged, s.skip(1)) {
            Ok((Datum::F64(bits), n)) => Ok((JsonNumber::Float(bits), n + 1)),
            Ok(_) => Err(Fault::Decode),
            Err(f) => Err(f),
        }
    } else {
        Err(Fault::Decode)
    }
}

/// Reading `count` JSON trees in a row.
pub open spec fn parse_json_all(s: Seq<u8>, count: nat) -> Result<(Seq<JsonDatum>, nat), Fault>
    decreases s.len(), count + 1,
{
    if count == 0 {
        Ok((Seq::empty(), 0nat))
    } else {
        match parse_json(s) {
            Err(f) => Err(f),
            Ok((d, n)) => match parse_json_all(tail(s, n), (count - 1) as nat) {
                Err(f) => Err(f),
                Ok((rest, m)) => Ok((seq![d] + rest, n + m)),
            },
        }
    }
}

/// Reading `count` entries of a JSON object: a text key and a tree each.
pub open spec fn parse_json_entries(s: Seq<u8>, count: nat) -> Result<
    (Seq<(Seq<char>, JsonDatum)>, nat),
    Fault,
>
    decreases s.len(), count + 1,
{
    if count == 0 {
        Ok((Seq::empty(), 0nat))
    } else {
        match parse_text(s) {
            Err(f) => Err(f),
            Ok((key, n)) => match parse_json(tail(s, n)) {
                Err(f) => Err(f),
                Ok((d, m)) => match parse_json_entries(
                    tail(tail(s, n), m),
                    (count - 1) as nat,
                ) {
                    Err(f) => Err(f),
                    Ok((rest, k)) => Ok((seq![(key, d)] + rest, n + m + k)),
                },
            },
        }
    }
}

/// What a decoder of JSON trees makes of the front of `s`.
pub open spec fn parse_json(s: Seq<u8>) -> Result<(JsonDatum, nat), Fault>
    decreases s.len(), 0nat,
{
    if s.len() == 0 {
        Err(Fault::InsufficientData)
    } else {
        let tag = s[0];
        let rest = s.skip(1);
        if tag == TAG_JSON_NULL {
            Ok((JsonDatum::Null, 1nat))
        } else if tag == TAG_JSON_BOOL {
            match parse_bool(Mode::Tagged, rest) {
                Ok((b, n)) => Ok((JsonDatum::Bool(b), n + 1)),
                Err(f) => Err(f),
            }
        } else if tag == TAG_JSON_NUMBER {
            match parse_json_number(rest) {
                Ok((number, n)) => Ok((JsonDatum::Number(number), n + 1)),
                Err(f) => Err(f),
            }
        } else if tag == TAG_JSON_STRING {
            match parse_text(rest) {
                Ok((chars, n)) => Ok((JsonDatum::Text(chars), n + 1)),
                Err(f) => Err(f),
            }
        } else if tag == TAG_JSON_ARRAY {
            match parse_uint(rest, word_bits()) {
                Err(f) => Err(f),
                Ok((count, n)) => match parse_json_all(tail(rest, n), count) {
                    Ok((items, m)) => Ok((JsonDatum::Array(items), 1 + n + m)),
                    Err(f) => Err(f),
                },
            }
        } else if tag == TAG_JSON_OBJECT {
            match parse_uint(rest, word_bits()) {
                Err(f) => Err(f),
                Ok((count, n)) => match parse_json_entries(tail(rest, n), count) {
                    Ok((entries, m)) => Ok((JsonDatum::Object(entries), 1 + n + m)),
                    Err(f) => Err(f),
                },
            }
        } else {
            Err(Fault::Decode)
        }
    }
}

/// Confirms that the lengths in a JSON tree fit; for a tree that stands in
/// memory they always do.
#[verifier::loop_isolation(false)]
pub fn json_fits(value: &JsonValue) -> (r: bool)
    ensures
        r,
        json_conforms(value@),
    decreases value,
{
    match value {
        JsonValue::Text(text) => {
            let len = text.as_str().as_bytes().len();
        },
        JsonValue::Array(items) => {
            let mut i: usize = 0;
            while i < items.len()
                invariant
                    i <= items.len(),
                    forall|j: int| 0 <= j < i ==> json_conforms(#[trigger] json_items(items@)[j]),
                decreases items.len() - i,
            {
                assert(decreases_to!(items => items[i as int]));
                let _ = json_fits(&items[i]);
                i += 1;
            }
            proof {
                lemma_json_array_view(*items);
            }
        },
        JsonValue::Object(entries) => {
            let mut i: usize = 0;
            while i < entries.len()
                invariant
                    i <= entries.len(),
                    forall|j: int|
                        0 <= j < i ==> encode_utf8((#[trigger] json_entries(entries@)[j]).0).len()
                            <= usize::MAX && json_conforms(json_entries(entries@)[j].1),
                decreases entries.len() - i,
            {
                assert(decreases_to!(entries => entries[i as int]));
                let len = entries[i].0.as_str().as_bytes().len();
                let _ = json_fits(&entries[i].1);
                i += 1;
            }
            proof {
                lemma_json_object_view(*entries);
            }
        },
        _ => {},
    }
    true
}

/// Writes JSON trees one after the other.
#[verifier::loop_isolation(false)]
fn write_json_all(items: &Vec<JsonValue>, writer: &mut BytesMut)
    ensures
        written(*final(writer)) == written(*old(writer)) + json_wire_all(json_items(items@), 0),
    decreases items, 0nat,
{
    let ghost goal = written(*writer) + json_wire_all(json_items(items@), 0);
    let mut i: usize = 0;
    while i < items.len()
        invariant
            i <= items.len(),
            written(*writer) + json_wire_all(json_items(items@), i as nat) == goal,
        decreases items.len() - i,
    {
        assert(decreases_to!(items => items[i as int]));
        let ghost before = written(*writer);
        write_json(&items[i], writer);
        proof {
            let item = json_wire(json_items(items@)[i as int]);
            let rest = json_wire_all(json_items(items@), (i + 1) as nat);
            assert((before + item) + rest =~= before + (item + rest));
        }
        i += 1;
    }
    proof {
        assert(written(*writer) + Seq::<u8>::empty() =~= written(*writer));
    }
}

/// Writes the entries of a JSON object: key, tree, key, tree.
#[verifier::loop_isolation(false)]
fn write_json_entries(entries: &Vec<(String, JsonValue)>, writer: &mut BytesMut)
    ensures
        written(*final(writer)) == written(*old(writer)) + json_wire_entries(
            json_entries(entries@),
            0,
        ),
    decreases entries, 0nat,
{
    let ghost goal = written(*writer) + json_wire_entries(json_entries(entries@), 0);
    let mut i: usize = 0;
    while i < entries.len()
        invariant
            i <= entries.len(),
            written(*writer) + json_wire_entries(json_entries(entries@), i as nat) == goal,
        decreases entries.len() - i,
    {
        assert(decreases_to!(entries => entries[i as int]));
        let ghost before = written(*writer);
        let _ = entries[i].0.encode(writer);
        write_json(&entries[i].1, writer);
        proof {
            let key = text_wire(json_entries(entries@)[i as int].0);
            let item = json_wire(json_entries(entries@)[i as int].1);
            let rest = json_wire_entries(json_entries(entries@), (i + 1) as nat);
            assert(((before + key) + item) + rest =~= before + (key + item + rest));
        }
        i += 1;
    }
    proof {
        assert(written(*writer) + Seq::<u8>::empty() =~= written(*writer));
    }
}

/// Writes a JSON tree.
pub fn write_json(value: &JsonValue, writer: &mut BytesMut)
    ensures
        written(*final(writer)) == written(*old(writer)) + json_wire(value@),
    decreases value, 1nat,
{
    match value {
        JsonValue::Null => {
            put_u8(writer, TAG_JSON_NULL);
        },
        JsonValue::Bool(b) => {
            put_u8(writer, TAG_JSON_BOOL);
            let _ = b.encode(writer);
            proof {
                assert(written(*writer) =~= written(*old(writer)) + json_wire(value@));
            }
        },
        JsonValue::Number(number) => {
            put_u8(writer, TAG_JSON_NUMBER);
            match number {
                JsonNumber::Unsigned(u) => {
                    put_u8(writer, 0);
                    let _ = u.encode(writer);
                },
                JsonNumber::Signed(i) => {
                    put_u8(writer, 1);
                    let _ = i.encode(writer);
                },
                JsonNumber::Float(bits) => {
                    put_u8(writer, 2);
                    put_u8(writer, TAG_F64);
                    put_u64_le(writer, *bits);
                },
            }
            proof {
                assert(written(*writer) =~= written(*old(writer)) + json_wire(value@));
            }
        },
        JsonValue::Text(text) => {
            put_u8(writer, TAG_JSON_STRING);
            let _ = text.encode(writer);
            proof {
                assert(written(*writer) =~= written(*old(writer)) + json_wire(value@));
            }
        },
        JsonValue::Array(items) => {
            put_u8(writer, TAG_JSON_ARRAY);
            let count = items.len();
            let _ = count.encode(writer);
            write_json_all(items, writer);
            proof {
                lemma_json_array_view(*items);
                let a = seq![TAG_JSON_ARRAY];
                let b = uint_wire(items@.len());
                let c = json_wire_all(json_items(items@), 0);
                assert(((written(*old(writer)) + a) + b) + c =~= written(*old(writer)) + (a + b
                    + c));
            }
        },
        JsonValue::Object(entries) => {
            put_u8(writer, TAG_JSON_OBJECT);
            let count = entries.len();
            let _ = count.encode(writer);
            write_json_entries(entries, writer);
            proof {
                lemma_json_object_view(*entries);
                let a = seq![TAG_JSON_OBJECT];
                let b = uint_wire(entries@.len());
                let c = json_wire_entries(json_entries(entries@), 0);
                assert(((written(*old(writer)) + a) + b) + c =~= written(*old(writer)) + (a + b
                    + c));
            }
        },
    }
}

/// Reads a JSON number whose tag has been consumed.
fn read_json_number(reader: &mut Bytes) -> (r: Result<JsonNumber, EncoderError>)
    ensures
        match parse_json_number(unread(*old(reader))) {
            Ok((number, n)) => r == Ok::<JsonNumber, EncoderError>(number) && n <= unread(
                *old(reader),
            ).len() && unread(*final(reader)) == unread(*old(reader)).skip(n as int),
            Err(f) => r matches Err(e) && e@ == f,
        },
{
    if remaining(reader) == 0 {
        return Err(EncoderError::InsufficientData);
    }
    let ghost s = unread(*reader);
    let kind = get_u8(reader);
    let ghost rest = unread(*reader);
    proof {
        lemma_parse_uint_bounds(rest, 64);
        lemma_parse_int_bounds(rest, 64);
    }
    if kind == 0 {
        match u64::decode(reader) {
            Ok(u) => {
                proof {
                    lemma_skip_twice(s, 1, (rest.len() - unread(*reader).len()) as nat);
                }
                Ok(JsonNumber::Unsigned(u))
            },
            Err(e) => Err(e),
        }
    } else if kind == 1 {
        match i64::decode(reader) {
            Ok(i) => {
                proof {
                    lemma_skip_twice(s, 1, (rest.len() - unread(*reader).len()) as nat);
                }
                Ok(JsonNumber::Signed(i))
            },
            Err(e) => Err(e),
        }
    } else if kind == 2 {
        match Float64::decode(reader) {
            Ok(f) => {
                proof {
                    lemma_skip_twice(s, 1, 9);
                }
                Ok(JsonNumber::Float(f.bits))
            },
            Err(e) => Err(e),
        }
    } else {
        Err(EncoderError::Decode(with_number("Invalid JSON Number type marker: ", kind as u128)))
    }
}

/// `used` bytes consumed so far and the items read so far, then what `next`
/// reads.
pub open spec fn json_then<T>(front: Seq<T>, used: nat, next: Result<(Seq<T>, nat), Fault>)
    -> Result<(Seq<T>, nat), Fault> {
    match next {
        Ok((rest, n)) => Ok((front + rest, used + n)),
        Err(f) => Err(f),
    }
}

/// Reads `count` JSON trees in a row.
fn read_json_all(count: usize, reader: &mut Bytes) -> (r: Result<Vec<JsonValue>, EncoderError>)
    ensures
        match parse_json_all(unread(*old(reader)), count as nat) {
            Ok((items, n)) => r matches Ok(v) && json_items(v@) == items && n <= unread(
                *old(reader),
            ).len() && unread(*final(reader)) == unread(*old(reader)).skip(n as int),
            Err(f) => r matches Err(e) && e@ == f,
        },
    decreases unread(*old(reader)).len(), count + 1,
{
    let ghost start = unread(*reader);
    let ghost whole = parse_json_all(start, count as nat);
    let mut out: Vec<JsonValue> = Vec::new();
    let mut i: usize = 0;
    let ghost mut used: nat = 0;
    proof {
        assert(start.skip(0) =~= start);
        assert(json_items(out@) =~= Seq::<JsonDatum>::empty());
        match whole {
            Ok((items, n)) => {
                assert(Seq::<JsonDatum>::empty() + items =~= items);
            },
            Err(_) => {},
        }
    }
    while i < count
        invariant
            i <= count,
            out@.len() == i,
            start == unread(*old(reader)),
            whole == parse_json_all(start, count as nat),
            used <= start.len(),
            unread(*reader) == start.skip(used as int),
            whole == json_then(
                json_items(out@),
                used,
                parse_json_all(unread(*reader), (count - i) as nat),
            ),
        decreases count - i,
    {
        let ghost cur = unread(*reader);
        let ghost front = json_items(out@);
        match read_json(reader) {
            Ok(value) => {
                out.push(value);
            },
            Err(e) => {
                return Err(e);
            },
        }
        proof {
            match parse_json(cur) {
                Ok((d, n)) => {
                    lemma_skip_twice(start, used, n);
                    assert(json_items(out@) =~= front.push(d));
                    match parse_json_all(tail(cur, n), (count - i - 1) as nat) {
                        Ok((more, m)) => {
                            assert(front + (seq![d] + more) =~= front.push(d) + more);
                        },
                        Err(_) => {},
                    }
                    used = used + n;
                },
                Err(_) => {},
            }
        }
        i += 1;
    }
    proof {
        assert(json_items(out@) + Seq::<JsonDatum>::empty() =~= json_items(out@));
    }
    Ok(out)
}

/// Reads `count` entries of a JSON object.
fn read_json_entries(count: usize, reader: &mut Bytes) -> (r: Result<
    Vec<(String, JsonValue)>,
    EncoderError,
>)
    ensures
        match parse_json_entries(unread(*old(reader)), count as nat) {
            Ok((entries, n)) => r matches Ok(v) && json_entries(v@) == entries && n <= unread(
                *old(reader),
            ).len() && unread(*final(reader)) == unread(*old(reader)).skip(n as int),
            Err(f) => r matches Err(e) && e@ == f,
        },
    decreases unread(*old(reader)).len(), count + 1,
{
    let ghost start = unread(*reader);
    let ghost whole = parse_json_entries(start, count as nat);
    let mut out: Vec<(String, JsonValue)> = Vec::new();
    let mut i: usize = 0;
    let ghost mut used: nat = 0;
    proof {
        assert(start.skip(0) =~= start);
        assert(json_entries(out@) =~= Seq::<(Seq<char>, JsonDatum)>::empty());
        match whole {
            Ok((items, n)) => {
                assert(Seq::<(Seq<char>, JsonDatum)>::empty() + items =~= items);
            },
            Err(_) => {},
        }
    }
    while i < count
        invariant
            i <= count,
            out@.len() == i,
            start == unread(*old(reader)),
            whole == parse_json_entries(start, count as nat),
            used <= start.len(),
            unread(*reader) == start.skip(used as int),
            whole == json_then(
                json_entries(out@),
                used,
                parse_json_entries(unread(*reader), (count - i) as nat),
            ),
        decreases count - i,
    {
        let ghost cur = unread(*reader);
        let ghost front = json_entries(out@);
        let key = match String::decode(reader) {
            Ok(key) => key,
            Err(e) => {
                return Err(e);
            },
        };
        let ghost mid = unread(*reader);
        let value = match read_json(reader) {
            Ok(value) => value,
            Err(e) => {
                return Err(e);
            },
        };
        out.push((key, value));
        proof {
            match parse_text(cur) {
                Ok((chars, n)) => {
                    lemma_skip_twice(start, used, n);
                    match parse_json(mid) {
                        Ok((d, m)) => {
                            lemma_skip_twice(start, used + n, m);
                            assert(json_entries(out@) =~= front.push((chars, d)));
                            match parse_json_entries(tail(mid, m), (count - i - 1) as nat) {
                                Ok((more, k)) => {
                                    assert(front + (seq![(chars, d)] + more) =~= front.push(
                                        (chars, d),
                                    ) + more);
                                },
                                Err(_) => {},
                            }
                            used = used + n + m;
                        },
                        Err(_) => {},
                    }
                },
                Err(_) => {},
            }
        }
        i += 1;
    }
    proof {
        assert(json_entries(out@) + Seq::<(Seq<char>, JsonDatum)>::empty() =~= json_entries(out@));
    }
    Ok(out)
}

/// Reads a JSON tree.
pub fn read_json(reader: &mut Bytes) -> (r: Result<JsonValue, EncoderError>)
    ensures
        match parse_json(unread(*old(reader))) {
            Ok((d, n)) => r matches Ok(v) && v@ == d && n <= unread(*old(reader)).len() && unread(
                *final(reader),
            ) == unread(*old(reader)).skip(n as int),
            Err(f) => r matches Err(e) && e@ == f,
        },
    decreases unread(*old(reader)).len(), 0nat,
{
    if remaining(reader) == 0 {
        return Err(EncoderError::InsufficientData);
    }
    let ghost s = unread(*reader);
    let tag = get_u8(reader);
    let ghost rest = unread(*reader);
    if tag == TAG_JSON_NULL {
        Ok(JsonValue::Null)
    } else if tag == TAG_JSON_BOOL {
        match bool::decode(reader) {
            Ok(b) => {
                proof {
                    lemma_skip_twice(s, 1, 1);
                }
                Ok(JsonValue::Bool(b))
            },
            Err(e) => Err(e),
        }
    } else if tag == TAG_JSON_NUMBER {
        match read_json_number(reader) {
            Ok(number) => {
                proof {
                    lemma_skip_twice(s, 1, (rest.len() - unread(*reader).len()) as nat);
                }
                Ok(JsonValue::Number(number))
            },
            Err(e) => Err(e),
        }
    } else if tag == TAG_JSON_STRING {
        match String::decode(reader) {
            Ok(text) => {
                proof {
                    lemma_skip_twice(s, 1, (rest.len() - unread(*reader).len()) as nat);
                }
                Ok(JsonValue::Text(text))
            },
            Err(e) => Err(e),
        }
    } else if tag == TAG_JSON_ARRAY || tag == TAG_JSON_OBJECT {
        proof {
            lemma_parse_uint_bounds(rest, word_bits());
        }
        let count = match usize::decode(reader) {
            Ok(count) => count,
            Err(e) => {
                return Err(e);
            },
        };
        let ghost body = unread(*reader);
        let ghost lead = (s.len() - body.len()) as nat;
        proof {
            lemma_skip_twice(s, 1, (lead - 1) as nat);
        }
        if tag == TAG_JSON_ARRAY {
            match read_json_all(count, reader) {
                Ok(items) => {
                    proof {
                        lemma_json_array_view(items);
                        lemma_skip_twice(s, lead, (body.len() - unread(*reader).len()) as nat);
                    }
                    Ok(JsonValue::Array(items))
                },
                Err(e) => Err(e),
            }
        } else {
            match read_json_entries(count, reader) {
                Ok(entries) => {
                    proof {
                        lemma_json_object_view(entries);
                        lemma_skip_twice(s, lead, (body.len() - unread(*reader).len()) as nat);
                    }
                    Ok(JsonValue::Object(entries))
                },
                Err(e) => Err(e),
            }
        }
    } else {
        Err(
            EncoderError::Decode(
                with_number("Expected JSON Value tag (202-207), got ", tag as u128),
            ),
        )
    }
}

} // verus!
