//! A compact, self-describing binary codec with schema evolution.
//!
//! Every encoded value starts with a one-byte tag. Structs and enums are
//! framed either in *tagged* mode, where each field carries a 64-bit
//! identifier and unknown fields are skipped, or in *packed* mode, where
//! fields are positional and a structure hash guards the layout.
//!
//! All executable code in this crate is verified against specifications
//! over byte sequences. The only trusted parts are the thin wrappers around
//! the byte buffers of the `bytes` crate and a few other outside calls; each
//! of them says in its documentation what it assumes.

pub mod adapter;
pub mod attribute;
pub mod buffer;
pub mod codec;
pub mod conform;
pub mod derive;
pub mod error;
pub mod field_id;
pub mod format;
pub mod json;
pub mod laws;
pub mod le;
pub mod model;
pub mod reader;
pub mod schema;
pub mod skip;
pub mod spec;
pub mod tag;
pub mod text;
pub mod value;
pub mod varint;
pub mod writer;

pub use crate::codec::{decode, encode, pack, unpack, Decoder, Encoder, Packer, Unpacker};
pub use crate::derive::{derive_decode, derive_encode, derive_pack, derive_unpack};
pub use crate::error::{EncoderError, EnumDecodeError, StructDecodeError};
