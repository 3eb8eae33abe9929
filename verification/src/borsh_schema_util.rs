//! The JSON projection of a schema container.
//!
//! A schema container is itself a value with a schema. Its JSON projection is what
//! the decoder reads from the container's bytes under that schema of schemas.
use crate::codec::decode;
use crate::deserialize_adapter::deserialize_from_schema;
use crate::errors::CodecError;
use crate::json::{JsonSpec, JsonValue};
use crate::schema::{Schema, SchemaSpec};
use crate::schema_writer::{schema_bytes, schema_to_bytes};
use vstd::prelude::*;

verus! {

/// The JSON projection of the schema `s` under the schema of schemas `meta`: the
/// value that the bytes of `s` decode to.
pub open spec fn schema_json(s: SchemaSpec, meta: SchemaSpec) -> Result<JsonSpec, CodecError> {
    match schema_bytes(s) {
        Err(e) => Err(e),
        Ok(bytes) => match decode(meta, bytes) {
            Err(e) => Err(e),
            Ok((v, _)) => Ok(v),
        },
    }
}

/// Projects a schema container to JSON: writes it to bytes and decodes them under
/// `schema_of_schema`, the schema that describes schema containers.
pub fn schema_as_json(schema: &Schema, schema_of_schema: &Schema) -> (r: Result<
    JsonValue,
    CodecError,
>)
    ensures
        match schema_json(schema@, schema_of_schema@) {
            Ok(v) => r matches Ok(got) && got@ == v,
            Err(e) => r matches Err(got) && got == e,
        },
{
    let bytes = match schema_to_bytes(schema) {
        Ok(bytes) => bytes,
        Err(e) => {
            return Err(e);
        },
    };
    let mut cursor: &[u8] = bytes.as_slice();
    deserialize_from_schema(&mut cursor, schema_of_schema)
}

} // verus!
