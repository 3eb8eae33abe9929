//! A codec between the `borsh` binary encoding and JSON values, led by a schema.
//!
//! A [`schema::Schema`] describes the layout of a value: primitives, sequences,
//! tuples, enums and structs. With it,
//! [`deserialize_adapter::deserialize_from_schema`] reads a [`json::JsonValue`] from
//! bytes and [`serialize_adapter::serialize_serde_json_to_borsh`] writes one to
//! bytes. [`schema_writer::schema_to_bytes`] writes a schema itself to bytes, and
//! [`borsh_schema_util::schema_as_json`] projects it to JSON.
//!
//! What each of them returns is defined in [`codec`] and [`schema_writer`] by
//! functions on byte sequences, and proved of the code. [`round_trip`], [`laws`] and
//! [`depth`] prove what follows from those definitions: that decoding undoes
//! encoding, that the names of variants and the order of an object's members leave
//! no trace in the bytes, and more. The bytes of the primitives are read and written
//! by `borsh`, through the functions of [`wire`].

pub mod borsh_schema_util;
pub mod codec;
pub mod decimal;
pub mod depth;
pub mod deserialize_adapter;
pub mod errors;
pub mod float_bits;
pub mod json;
pub mod laws;
pub mod names;
pub mod round_trip;
pub mod schema;
pub mod schema_writer;
pub mod serialize_adapter;
pub mod wire;
