//! The operations of a declared struct or enum: what a derived
//! implementation of the codec traits does, driven by the declaration.
//!
//! `derive_encode` and `derive_decode` are the tagged protocol, `derive_pack`
//! and `derive_unpack` the packed one. Each first checks the declaration, so
//! that a declaration with a repeated identifier never writes or reads a
//! byte. The `*_value` functions do the same for any shape, without the
//! check of the declaration.

use bytes::{Bytes, BytesMut};
use vstd::prelude::*;
use crate::buffer::{unread, written};
use crate::conform::conforms_to;
use crate::error::{EncoderError, Fault};
use crate::format::{conforms, parse, wire};
use crate::model::{Mode, Shape, Value};
use crate::reader::{read_one, read_value};
use crate::schema::{
    check_declaration, declaration_fault, is_declaration, schema_fault_text, valid, SchemaError,
    SchemaFault,
};
use crate::writer::write_value;

verus! {

/// What writing a value must have done: on success the encoding was
/// appended, on failure nothing was written.
pub open spec fn wrote(
    mode: Mode,
    shape: Shape,
    value: Value,
    before: Seq<u8>,
    after: Seq<u8>,
    r: Result<(), EncoderError>,
) -> bool {
    match r {
        Ok(()) => after == before + wire(mode, shape, value@),
        Err(e) => e@ == Fault::Encode && after == before,
    }
}

/// Writes `value` as a value of `shape` in `mode`, if it is one.
fn put_value(mode: Mode, shape: &Shape, value: &Value, writer: &mut BytesMut) -> (r: Result<
    (),
    EncoderError,
>)
    ensures
        r is Ok <==> conforms(mode, *shape, value@),
        wrote(mode, *shape, *value, written(*old(writer)), written(*final(writer)), r),
{
    if !conforms_to(mode, shape, value) {
        return Err(EncoderError::Encode(String::from_str("the value is not one of the shape")));
    }
    write_value(mode, shape, value, writer);
    Ok(())
}

/// Encodes `value` as a value of `shape` in tagged mode.
///
/// Fails, writing nothing, if the value is not one of the shape.
pub fn encode_value(shape: &Shape, value: &Value, writer: &mut BytesMut) -> (r: Result<
    (),
    EncoderError,
>)
    ensures
        r is Ok <==> conforms(Mode::Tagged, *shape, value@),
        wrote(Mode::Tagged, *shape, *value, written(*old(writer)), written(*final(writer)), r),
{
    put_value(Mode::Tagged, shape, value, writer)
}

/// Packs `value` as a value of `shape` in packed mode.
///
/// Fails, writing nothing, if the value is not one of the shape.
pub fn pack_value(shape: &Shape, value: &Value, writer: &mut BytesMut) -> (r: Result<
    (),
    EncoderError,
>)
    ensures
        r is Ok <==> conforms(Mode::Packed, *shape, value@),
        wrote(Mode::Packed, *shape, *value, written(*old(writer)), written(*final(writer)), r),
{
    put_value(Mode::Packed, shape, value, writer)
}

/// Decodes a value of `shape` from the front of `reader` in tagged mode.
pub fn decode_value(shape: &Shape, reader: &mut Bytes) -> (r: Result<Value, EncoderError>)
    ensures
        read_one(
            parse(Mode::Tagged, *shape, unread(*old(reader))),
            unread(*old(reader)),
            unread(*final(reader)),
            r,
        ),
{
    read_value(Mode::Tagged, shape, reader)
}

/// Unpacks a value of `shape` from the front of `reader` in packed mode.
pub fn unpack_value(shape: &Shape, reader: &mut Bytes) -> (r: Result<Value, EncoderError>)
    ensures
        read_one(
            parse(Mode::Packed, *shape, unread(*old(reader))),
            unread(*old(reader)),
            unread(*final(reader)),
            r,
        ),
{
    read_value(Mode::Packed, shape, reader)
}

/// The message for a declaration that cannot be used for `operation`: for
/// one that opts out of the mode, the name of the operation, the words
/// ` trait is disabled for ` and the declaration's name in quotes; for any
/// other defect, the message of the defect.
pub open spec fn refusal_text(f: SchemaFault, operation: Seq<char>) -> Seq<char> {
    match f {
        SchemaFault::Disabled { owner, mode } => operation + " trait is disabled for '"@ + owner
            + "'"@,
        _ => schema_fault_text(f),
    }
}

/// The message for a declaration that cannot be used for `operation`.
fn refusal(e: &SchemaError, operation: &str) -> (text: String)
    ensures
        text@ == refusal_text(e@, operation@),
{
    match e {
        SchemaError::Disabled { owner, mode } => {
            let mut text = String::from_str(operation);
            text.append(" trait is disabled for '");
            text.append(owner.as_str());
            text.append("'");
            text
        },
        _ => e.to_string(),
    }
}

/// The name of the operation that writes in `mode`.
pub open spec fn writing_name(mode: Mode) -> Seq<char> {
    if mode == Mode::Tagged {
        "Encode"@
    } else {
        "Pack"@
    }
}

/// The name of the operation that reads in `mode`.
pub open spec fn reading_name(mode: Mode) -> Seq<char> {
    if mode == Mode::Tagged {
        "Decode"@
    } else {
        "Unpack"@
    }
}

/// What writing for a declaration that cannot be used must have returned:
/// an encoding failure whose message is that of the fault.
pub open spec fn refused_to_write(
    fault: Option<SchemaFault>,
    operation: Seq<char>,
    r: Result<(), EncoderError>,
) -> bool {
    match fault {
        Some(f) => r matches Err(EncoderError::Encode(text)) && text@ == refusal_text(f, operation),
        None => true,
    }
}

/// What reading for a declaration that cannot be used must have returned:
/// a decoding failure whose message is that of the fault.
pub open spec fn refused_to_read(
    fault: Option<SchemaFault>,
    operation: Seq<char>,
    r: Result<Value, EncoderError>,
) -> bool {
    match fault {
        Some(f) => r matches Err(EncoderError::Decode(text)) && text@ == refusal_text(f, operation),
        None => true,
    }
}

/// Writes a value of the declaration `input` in `mode`, after checking the
/// declaration.
fn derive_write(mode: Mode, input: &Shape, value: &Value, writer: &mut BytesMut) -> (r: Result<
    (),
    EncoderError,
>)
    ensures
        r is Ok <==> is_declaration(*input) && valid(mode, *input) && conforms(
            mode,
            *input,
            value@,
        ),
        wrote(mode, *input, *value, written(*old(writer)), written(*final(writer)), r),
        refused_to_write(declaration_fault(mode, *input), writing_name(mode), r),
{
    match check_declaration(mode, input) {
        Ok(()) => {},
        Err(e) => {
            let operation = if mode == Mode::Tagged {
                "Encode"
            } else {
                "Pack"
            };
            return Err(EncoderError::Encode(refusal(&e, operation)));
        },
    }
    put_value(mode, input, value, writer)
}

/// Reads a value of the declaration `input` in `mode`, after checking the
/// declaration.
fn derive_read(mode: Mode, input: &Shape, reader: &mut Bytes) -> (r: Result<Value, EncoderError>)
    ensures
        if is_declaration(*input) && valid(mode, *input) {
            read_one(
                parse(mode, *input, unread(*old(reader))),
                unread(*old(reader)),
                unread(*final(reader)),
                r,
            )
        } else {
            r matches Err(e) && e@ == Fault::Decode && unread(*final(reader)) == unread(
                *old(reader),
            )
        },
        refused_to_read(declaration_fault(mode, *input), reading_name(mode), r),
{
    match check_declaration(mode, input) {
        Ok(()) => {},
        Err(e) => {
            let operation = if mode == Mode::Tagged {
                "Decode"
            } else {
                "Unpack"
            };
            return Err(EncoderError::Decode(refusal(&e, operation)));
        },
    }
    read_value(mode, input, reader)
}

/// Encodes a value of the struct or enum `input` in tagged mode.
///
/// A struct with named fields is its tag, then each field that is written
/// as its identifier and its value, then the terminator. A field is not
/// written if its policy says so, if it is optional and absent, or if it has
/// the `skip_default` policy and holds its type's default. A positional
/// struct is its tag, the number of fields and the fields. An enum variant
/// is the tag of its form, the variant's identifier, and its fields as in a
/// struct.
///
/// Fails, writing nothing, if `input` is no declaration, if the declaration
/// is not valid (an identifier is 0 or repeated, or a declaration in it opts
/// out of tagged mode), or if `value` is not a value of it. For a
/// declaration that cannot be used the message is that of the fault: for a
/// repeated identifier it names the identifier and both items that have it.
pub fn derive_encode(input: &Shape, value: &Value, writer: &mut BytesMut) -> (r: Result<
    (),
    EncoderError,
>)
    ensures
        r is Ok <==> is_declaration(*input) && valid(Mode::Tagged, *input) && conforms(
            Mode::Tagged,
            *input,
            value@,
        ),
        wrote(Mode::Tagged, *input, *value, written(*old(writer)), written(*final(writer)), r),
        refused_to_write(declaration_fault(Mode::Tagged, *input), "Encode"@, r),
{
    derive_write(Mode::Tagged, input, value, writer)
}

/// Decodes a value of the struct or enum `input` in tagged mode.
///
/// Fields are matched by identifier. A value under an identifier that no
/// field to be read has is skipped. A field that the wire has nothing for
/// takes its zero value if it is not read or has a default policy, is
/// absent if it is optional, and is an error otherwise.
///
/// Fails, reading nothing, if `input` is no valid declaration; the message
/// is then that of the fault.
pub fn derive_decode(input: &Shape, reader: &mut Bytes) -> (r: Result<Value, EncoderError>)
    ensures
        if is_declaration(*input) && valid(Mode::Tagged, *input) {
            read_one(
                parse(Mode::Tagged, *input, unread(*old(reader))),
                unread(*old(reader)),
                unread(*final(reader)),
                r,
            )
        } else {
            r matches Err(e) && e@ == Fault::Decode && unread(*final(reader)) == unread(
                *old(reader),
            )
        },
        refused_to_read(declaration_fault(Mode::Tagged, *input), "Decode"@, r),
{
    derive_read(Mode::Tagged, input, reader)
}

/// Packs a value of the struct or enum `input` in packed mode.
///
/// A struct with named fields is its structure hash in eight little-endian
/// bytes, then every field in declaration order. A positional struct is the
/// number of fields and the fields; a unit struct is nothing. An enum
/// variant is its identifier, then its fields as in a struct, with the
/// structure hash of the enum.
///
/// Fails, writing nothing, if `input` is no declaration, if the declaration
/// is not valid, or if `value` is not a value of it.
pub fn derive_pack(input: &Shape, value: &Value, writer: &mut BytesMut) -> (r: Result<
    (),
    EncoderError,
>)
    ensures
        r is Ok <==> is_declaration(*input) && valid(Mode::Packed, *input) && conforms(
            Mode::Packed,
            *input,
            value@,
        ),
        wrote(Mode::Packed, *input, *value, written(*old(writer)), written(*final(writer)), r),
        refused_to_write(declaration_fault(Mode::Packed, *input), "Pack"@, r),
{
    derive_write(Mode::Packed, input, value, writer)
}

/// Unpacks a value of the struct or enum `input` in packed mode.
///
/// The structure hash on the wire must be that of the declaration, and a
/// positional body must announce the declared number of fields.
///
/// Fails, reading nothing, if `input` is no valid declaration.
pub fn derive_unpack(input: &Shape, reader: &mut Bytes) -> (r: Result<Value, EncoderError>)
    ensures
        if is_declaration(*input) && valid(Mode::Packed, *input) {
            read_one(
                parse(Mode::Packed, *input, unread(*old(reader))),
                unread(*old(reader)),
                unread(*final(reader)),
                r,
            )
        } else {
            r matches Err(e) && e@ == Fault::Decode && unread(*final(reader)) == unread(
                *old(reader),
            )
        },
        refused_to_read(declaration_fault(Mode::Packed, *input), "Unpack"@, r),
{
    derive_read(Mode::Packed, input, reader)
}

} // verus!
