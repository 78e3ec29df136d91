//! Failures of encoding and decoding.

use vstd::prelude::*;
use crate::text::{decimal, hex_digits, hex_text, number_text, with_number};

verus! {

/// Why decoding a struct failed.
#[derive(Debug, Clone)]
#[allow(inconsistent_fields)]
pub enum StructDecodeError {
    /// The leading tag is not the one the struct's form requires.
    InvalidTag { expected: u8, actual: u8 },
    /// A field that has no default policy was not on the wire.
    MissingRequiredField { field: String, struct_name: String },
    /// A positional struct was written with another number of fields.
    FieldCountMismatch { struct_name: String, expected: usize, actual: usize },
    /// Packed data was written for a differently shaped struct.
    StructureHashMismatch { struct_name: String, expected: u64, actual: u64 },
}

/// Why decoding an enum failed.
#[derive(Debug, Clone)]
#[allow(inconsistent_fields)]
pub enum EnumDecodeError {
    /// The leading tag is none of the three enum tags.
    UnknownTag { tag: u8, enum_name: String },
    /// No variant of the right form has this identifier.
    UnknownVariantId { variant_id: u64, enum_name: String },
    /// No unit variant has this identifier.
    UnknownUnitVariantId { variant_id: u64, enum_name: String },
    /// No variant with named fields has this identifier.
    UnknownNamedVariantId { variant_id: u64, enum_name: String },
    /// No variant with positional fields has this identifier.
    UnknownUnnamedVariantId { variant_id: u64, enum_name: String },
    /// A field that has no default policy was not on the wire.
    MissingRequiredField { field: String, enum_name: String, variant_name: String },
    /// A positional variant was written with another number of fields.
    FieldCountMismatch { enum_name: String, variant_name: String, expected: usize, actual: usize },
    /// Packed data was written for a differently shaped enum.
    StructureHashMismatch { enum_name: String, variant_name: String, expected: u64, actual: u64 },
}

/// Any failure of this crate's operations.
#[derive(Debug, Clone)]
pub enum EncoderError {
    /// The value could not be encoded.
    Encode(String),
    /// The bytes do not spell a value of the expected type.
    Decode(String),
    /// The input ended before the value did.
    InsufficientData,
    /// A struct could not be decoded.
    StructDecode(StructDecodeError),
    /// An enum could not be decoded.
    EnumDecode(EnumDecodeError),
}

/// The logical content of a [`StructDecodeError`].
#[allow(inconsistent_fields)]
pub enum StructFault {
    InvalidTag { expected: u8, actual: u8 },
    MissingRequiredField { field: Seq<char>, struct_name: Seq<char> },
    FieldCountMismatch { struct_name: Seq<char>, expected: usize, actual: usize },
    StructureHashMismatch { struct_name: Seq<char>, expected: u64, actual: u64 },
}

/// The logical content of an [`EnumDecodeError`].
#[allow(inconsistent_fields)]
pub enum EnumFault {
    UnknownTag { tag: u8, enum_name: Seq<char> },
    UnknownVariantId { variant_id: u64, enum_name: Seq<char> },
    UnknownUnitVariantId { variant_id: u64, enum_name: Seq<char> },
    UnknownNamedVariantId { variant_id: u64, enum_name: Seq<char> },
    UnknownUnnamedVariantId { variant_id: u64, enum_name: Seq<char> },
    MissingRequiredField { field: Seq<char>, enum_name: Seq<char>, variant_name: Seq<char> },
    FieldCountMismatch {
        enum_name: Seq<char>,
        variant_name: Seq<char>,
        expected: usize,
        actual: usize,
    },
    StructureHashMismatch {
        enum_name: Seq<char>,
        variant_name: Seq<char>,
        expected: u64,
        actual: u64,
    },
}

/// The logical content of an [`EncoderError`]: which failure it is, without
/// the free text that `Encode` and `Decode` carry for the reader.
pub enum Fault {
    Encode,
    Decode,
    InsufficientData,
    Struct(StructFault),
    Enum(EnumFault),
}

impl View for StructDecodeError {
    type V = StructFault;

    open spec fn view(&self) -> StructFault {
        match self {
            StructDecodeError::InvalidTag { expected, actual } => StructFault::InvalidTag {
                expected: *expected,
                actual: *actual,
            },
            StructDecodeError::MissingRequiredField { field, struct_name } => {
                StructFault::MissingRequiredField { field: field@, struct_name: struct_name@ }
            },
            StructDecodeError::FieldCountMismatch { struct_name, expected, actual } => {
                StructFault::FieldCountMismatch {
                    struct_name: struct_name@,
                    expected: *expected,
                    actual: *actual,
                }
            },
            StructDecodeError::StructureHashMismatch { struct_name, expected, actual } => {
                StructFault::StructureHashMismatch {
                    struct_name: struct_name@,
                    expected: *expected,
                    actual: *actual,
                }
            },
        }
    }
}

impl View for EnumDecodeError {
    type V = EnumFault;

    open spec fn view(&self) -> EnumFault {
        match self {
            EnumDecodeError::UnknownTag { tag, enum_name } => EnumFault::UnknownTag {
                tag: *tag,
                enum_name: enum_name@,
            },
            EnumDecodeError::UnknownVariantId { variant_id, enum_name } => {
                EnumFault::UnknownVariantId { variant_id: *variant_id, enum_name: enum_name@ }
            },
            EnumDecodeError::UnknownUnitVariantId { variant_id, enum_name } => {
                EnumFault::UnknownUnitVariantId { variant_id: *variant_id, enum_name: enum_name@ }
            },
            EnumDecodeError::UnknownNamedVariantId { variant_id, enum_name } => {
                EnumFault::UnknownNamedVariantId { variant_id: *variant_id, enum_name: enum_name@ }
            },
            EnumDecodeError::UnknownUnnamedVariantId { variant_id, enum_name } => {
                EnumFault::UnknownUnnamedVariantId {
                    variant_id: *variant_id,
                    enum_name: enum_name@,
                }
            },
            EnumDecodeError::MissingRequiredField { field, enum_name, variant_name } => {
                EnumFault::MissingRequiredField {
                    field: field@,
                    enum_name: enum_name@,
                    variant_name: variant_name@,
                }
            },
            EnumDecodeError::FieldCountMismatch { enum_name, variant_name, expected, actual } => {
                EnumFault::FieldCountMismatch {
                    enum_name: enum_name@,
                    variant_name: variant_name@,
                    expected: *expected,
                    actual: *actual,
                }
            },
            EnumDecodeError::StructureHashMismatch {
                enum_name,
                variant_name,
                expected,
                actual,
            } => EnumFault::StructureHashMismatch {
                enum_name: enum_name@,
                variant_name: variant_name@,
                expected: *expected,
                actual: *actual,
            },
        }
    }
}

impl View for EncoderError {
    type V = Fault;

    open spec fn view(&self) -> Fault {
        match self {
            EncoderError::Encode(_) => Fault::Encode,
            EncoderError::Decode(_) => Fault::Decode,
            EncoderError::InsufficientData => Fault::InsufficientData,
            EncoderError::StructDecode(e) => Fault::Struct(e@),
            EncoderError::EnumDecode(e) => Fault::Enum(e@),
        }
    }
}

/// The message of a struct fault.
pub open spec fn struct_fault_text(fault: StructFault) -> Seq<char> {
    match fault {
        StructFault::InvalidTag { expected, actual } => "Expected struct named tag ("@ + decimal(
            expected as nat,
        ) + "), got "@ + decimal(actual as nat),
        StructFault::MissingRequiredField { field, struct_name } => "Required field '"@ + field
            + "' not found for struct "@ + struct_name,
        StructFault::FieldCountMismatch { struct_name, expected, actual } => {
            "Field count mismatch for struct "@ + struct_name + ": expected "@ + decimal(
                expected as nat,
            ) + ", got "@ + decimal(actual as nat)
        },
        StructFault::StructureHashMismatch { struct_name, expected, actual } => {
            "Structure hash mismatch for "@ + struct_name + ": expected 0x"@ + hex_digits(
                expected as nat,
                16,
            ) + ", got 0x"@ + hex_digits(actual as nat, 16)
        },
    }
}

/// The message of an enum fault.
pub open spec fn enum_fault_text(fault: EnumFault) -> Seq<char> {
    match fault {
        EnumFault::UnknownTag { tag, enum_name } => "Unknown enum tag: "@ + decimal(tag as nat)
            + " for enum "@ + enum_name,
        EnumFault::UnknownVariantId { variant_id, enum_name } => "Unknown variant ID: 0x"@
            + hex_digits(variant_id as nat, 16) + " for enum "@ + enum_name,
        EnumFault::UnknownUnitVariantId { variant_id, enum_name } => "Unknown unit variant ID: 0x"@
            + hex_digits(variant_id as nat, 16) + " for enum "@ + enum_name,
        EnumFault::UnknownNamedVariantId { variant_id, enum_name } => {
            "Unknown named variant ID: 0x"@ + hex_digits(variant_id as nat, 16) + " for enum "@
                + enum_name
        },
        EnumFault::UnknownUnnamedVariantId { variant_id, enum_name } => {
            "Unknown unnamed variant ID: 0x"@ + hex_digits(variant_id as nat, 16) + " for enum "@
                + enum_name
        },
        EnumFault::MissingRequiredField { field, enum_name, variant_name } => "Required field '"@
            + field + "' not found for variant "@ + enum_name + "::"@ + variant_name,
        EnumFault::FieldCountMismatch { enum_name, variant_name, expected, actual } => {
            "Field count mismatch for variant "@ + enum_name + "::"@ + variant_name
                + ": expected "@ + decimal(expected as nat) + ", got "@ + decimal(actual as nat)
        },
        EnumFault::StructureHashMismatch { enum_name, variant_name, expected, actual } => {
            "Structure hash mismatch for variant "@ + enum_name + "::"@ + variant_name
                + ": expected 0x"@ + hex_digits(expected as nat, 16) + ", got 0x"@ + hex_digits(
                actual as nat,
                16,
            )
        },
    }
}

/// The message of an error.
pub open spec fn error_text(e: EncoderError) -> Seq<char> {
    match e {
        EncoderError::Encode(message) => "Encode error: "@ + message@,
        EncoderError::Decode(message) => "Decode error: "@ + message@,
        EncoderError::InsufficientData => "Insufficient data in buffer"@,
        EncoderError::StructDecode(inner) => struct_fault_text(inner@),
        EncoderError::EnumDecode(inner) => enum_fault_text(inner@),
    }
}

impl StructDecodeError {
    /// The message of the error.
    pub fn to_string(&self) -> (text: String)
        ensures
            text@ == struct_fault_text(self@),
    {
        match self {
            StructDecodeError::InvalidTag { expected, actual } => {
                let mut text = with_number("Expected struct named tag (", *expected as u128);
                text.append("), got ");
                text.append(number_text(*actual as u128).as_str());
                text
            },
            StructDecodeError::MissingRequiredField { field, struct_name } => {
                let mut text = String::from_str("Required field '");
                text.append(field.as_str());
                text.append("' not found for struct ");
                text.append(struct_name.as_str());
                text
            },
            StructDecodeError::FieldCountMismatch { struct_name, expected, actual } => {
                let mut text = String::from_str("Field count mismatch for struct ");
                text.append(struct_name.as_str());
                text.append(": expected ");
                text.append(number_text(*expected as u128).as_str());
                text.append(", got ");
                text.append(number_text(*actual as u128).as_str());
                text
            },
            StructDecodeError::StructureHashMismatch { struct_name, expected, actual } => {
                let mut text = String::from_str("Structure hash mismatch for ");
                text.append(struct_name.as_str());
                text.append(": expected 0x");
                text.append(hex_text(*expected).as_str());
                text.append(", got 0x");
                text.append(hex_text(*actual).as_str());
                text
            },
        }
    }
}

/// `head`, then the identifier in hexadecimal, then ` for enum ` and the name.
fn unknown_id_text(head: &str, variant_id: u64, enum_name: &String) -> (text: String)
    ensures
        text@ == head@ + hex_digits(variant_id as nat, 16) + " for enum "@ + enum_name@,
{
    let mut text = String::from_str(head);
    text.append(hex_text(variant_id).as_str());
    text.append(" for enum ");
    text.append(enum_name.as_str());
    text
}

impl EnumDecodeError {
    /// The message of the error.
    pub fn to_string(&self) -> (text: String)
        ensures
            text@ == enum_fault_text(self@),
    {
        match self {
            EnumDecodeError::UnknownTag { tag, enum_name } => {
                let mut text = with_number("Unknown enum tag: ", *tag as u128);
                text.append(" for enum ");
                text.append(enum_name.as_str());
                text
            },
            EnumDecodeError::UnknownVariantId { variant_id, enum_name } => unknown_id_text(
                "Unknown variant ID: 0x",
                *variant_id,
                enum_name,
            ),
            EnumDecodeError::UnknownUnitVariantId { variant_id, enum_name } => unknown_id_text(
                "Unknown unit variant ID: 0x",
                *variant_id,
                enum_name,
            ),
            EnumDecodeError::UnknownNamedVariantId { variant_id, enum_name } => unknown_id_text(
                "Unknown named variant ID: 0x",
                *variant_id,
                enum_name,
            ),
            EnumDecodeError::UnknownUnnamedVariantId { variant_id, enum_name } => unknown_id_text(
                "Unknown unnamed variant ID: 0x",
                *variant_id,
                enum_name,
            ),
            EnumDecodeError::MissingRequiredField { field, enum_name, variant_name } => {
                let mut text = String::from_str("Required field '");
                text.append(field.as_str());
                text.append("' not found for variant ");
                text.append(enum_name.as_str());
                text.append("::");
                text.append(variant_name.as_str());
                text
            },
            EnumDecodeError::FieldCountMismatch { enum_name, variant_name, expected, actual } => {
                let mut text = String::from_str("Field count mismatch for variant ");
                text.append(enum_name.as_str());
                text.append("::");
                text.append(variant_name.as_str());
                text.append(": expected ");
                text.append(number_text(*expected as u128).as_str());
                text.append(", got ");
                text.append(number_text(*actual as u128).as_str());
                text
            },
            EnumDecodeError::StructureHashMismatch {
                enum_name,
                variant_name,
                expected,
                actual,
            } => {
                let mut text = String::from_str("Structure hash mismatch for variant ");
                text.append(enum_name.as_str());
                text.append("::");
                text.append(variant_name.as_str());
                text.append(": expected 0x");
                text.append(hex_text(*expected).as_str());
                text.append(", got 0x");
                text.append(hex_text(*actual).as_str());
                text
            },
        }
    }
}

impl EncoderError {
    /// The message of the error.
    pub fn to_string(&self) -> (text: String)
        ensures
            text@ == error_text(*self),
    {
        match self {
            EncoderError::Encode(message) => {
                let mut text = String::from_str("Encode error: ");
                text.append(message.as_str());
                text
            },
            EncoderError::Decode(message) => {
                let mut text = String::from_str("Decode error: ");
                text.append(message.as_str());
                text
            },
            EncoderError::InsufficientData => String::from_str("Insufficient data in buffer"),
            EncoderError::StructDecode(inner) => inner.to_string(),
            EncoderError::EnumDecode(inner) => inner.to_string(),
        }
    }
}

} // verus!
