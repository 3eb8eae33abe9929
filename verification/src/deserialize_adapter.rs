//! The decoder: from bytes to a JSON value, led by a schema.
use crate::codec::{
    decode, decode_fields, decode_items, decode_primitive, decode_tuple, decode_value,
    field_names, has_duplicate_names, has_duplicates, lemma_decode_fields_error, lemma_decode_items_error,
    lemma_decode_tuple_error, MAX_DEPTH,
};
use crate::decimal::{i128_to_decimal, u128_to_decimal};
use crate::errors::CodecError;
use crate::float_bits::{double_is_finite, double_is_nan, single_is_finite, single_is_nan, widen};
use crate::json::{
    array_view, lemma_object_view_push, object_view, JsonNumber, JsonSpec, JsonValue, NumberSpec,
};
use crate::schema::{names_view, pairs_view, Definition, Fields, Primitive, Schema};
use crate::wire::{
    lemma_le_nat_bound, lemma_pow256_values, read_bool, read_i128, read_i16, read_i32,
    read_i64, read_i8, read_prefix, read_string, read_u128, read_u16, read_u32, read_u64,
    read_u8,
};
use vstd::prelude::*;
use vstd::string::*;
use vstd::utf8::*;

verus! {

/// What a decoder returns: where the rules give a value, that value, with the cursor
/// on the bytes behind it; where they give an error, that error.
pub open spec fn decoded(
    r: Result<JsonValue, CodecError>,
    after: Seq<u8>,
    expected: Result<(JsonSpec, Seq<u8>), CodecError>,
) -> bool {
    match expected {
        Ok((v, rest)) => r matches Ok(got) && got@ == v && after == rest,
        Err(e) => r matches Err(got) && got == e,
    }
}

/// What a decoder of a list returns: as [`decoded`], for the items of the list.
pub open spec fn decoded_items(
    r: Result<Vec<JsonValue>, CodecError>,
    after: Seq<u8>,
    expected: Result<(Seq<JsonSpec>, Seq<u8>), CodecError>,
) -> bool {
    match expected {
        Ok((items, rest)) => r matches Ok(got) && array_view(got@) == items && after == rest,
        Err(e) => r matches Err(got) && got == e,
    }
}

/// Deserializes the value at the front of `buffer` under the schema, and moves the
/// cursor past it.
///
/// The value is the one that [`decode`] gives for the bytes, and the call succeeds
/// exactly when `decode` does. After an error the place of the cursor is not specified.
pub fn deserialize_from_schema(buffer: &mut &[u8], schema: &Schema) -> (r: Result<
    JsonValue,
    CodecError,
>)
    ensures
        decoded(r, final(buffer)@, decode(schema@, old(buffer)@)),
{
    deserialize_to_serde_json(buffer, schema, schema.declaration().as_str(), MAX_DEPTH)
}

/// The JSON number of a signed integer.
fn signed_number(v: i64) -> (r: JsonValue)
    ensures
        r@ == JsonSpec::Number(NumberSpec::Int(v as int)),
{
    if v < 0 {
        JsonValue::Number(JsonNumber::NegInt(v))
    } else {
        JsonValue::Number(JsonNumber::PosInt(v as u64))
    }
}

/// Reads a value of the primitive `p` as a JSON leaf.
fn deserialize_to_serde_json_by_type(buffer: &mut &[u8], p: Primitive) -> (r: Result<
    JsonValue,
    CodecError,
>)
    ensures
        decoded(r, final(buffer)@, decode_primitive(p, old(buffer)@)),
{
    proof {
        lemma_pow256_values();
        lemma_le_nat_bound(buffer@.take(p.spec_width() as int));
    }
    match p {
        Primitive::U8 => match read_u8(buffer) {
            Ok(v) => Ok(JsonValue::Number(JsonNumber::PosInt(v as u64))),
            Err(_) => Err(CodecError::InvalidData(p)),
        },
        Primitive::U16 => match read_u16(buffer) {
            Ok(v) => Ok(JsonValue::Number(JsonNumber::PosInt(v as u64))),
            Err(_) => Err(CodecError::InvalidData(p)),
        },
        Primitive::U32 => match read_u32(buffer) {
            Ok(v) => Ok(JsonValue::Number(JsonNumber::PosInt(v as u64))),
            Err(_) => Err(CodecError::InvalidData(p)),
        },
        Primitive::U64 => match read_u64(buffer) {
            Ok(v) => Ok(JsonValue::Number(JsonNumber::PosInt(v))),
            Err(_) => Err(CodecError::InvalidData(p)),
        },
        Primitive::U128 => match read_u128(buffer) {
            Ok(v) => Ok(JsonValue::String(u128_to_decimal(v))),
            Err(_) => Err(CodecError::InvalidData(p)),
        },
        Primitive::I8 => match read_i8(buffer) {
            Ok(v) => Ok(signed_number(v as i64)),
            Err(_) => Err(CodecError::InvalidData(p)),
        },
        Primitive::I16 => match read_i16(buffer) {
            Ok(v) => Ok(signed_number(v as i64)),
            Err(_) => Err(CodecError::InvalidData(p)),
        },
        Primitive::I32 => match read_i32(buffer) {
            Ok(v) => Ok(signed_number(v as i64)),
            Err(_) => Err(CodecError::InvalidData(p)),
        },
        Primitive::I64 => match read_i64(buffer) {
            Ok(v) => Ok(signed_number(v)),
            Err(_) => Err(CodecError::InvalidData(p)),
        },
        Primitive::I128 => match read_i128(buffer) {
            Ok(v) => Ok(JsonValue::String(i128_to_decimal(v))),
            Err(_) => Err(CodecError::InvalidData(p)),
        },
        Primitive::Float32 => match read_u32(buffer) {
            Ok(bits) => {
                if single_is_nan(bits) {
                    Err(CodecError::InvalidData(p))
                } else if single_is_finite(bits) {
                    Ok(JsonValue::Number(JsonNumber::Float(widen(bits))))
                } else {
                    Ok(JsonValue::Null)
                }
            },
            Err(_) => Err(CodecError::InvalidData(p)),
        },
        Primitive::Float64 => match read_u64(buffer) {
            Ok(bits) => {
                if double_is_nan(bits) {
                    Err(CodecError::InvalidData(p))
                } else if double_is_finite(bits) {
                    Ok(JsonValue::Number(JsonNumber::Float(bits)))
                } else {
                    Ok(JsonValue::Null)
                }
            },
            Err(_) => Err(CodecError::InvalidData(p)),
        },
        Primitive::String => match read_string(buffer) {
            Ok(s) => {
                proof {
                    encode_utf8_decode_utf8(s@);
                }
                Ok(JsonValue::String(s))
            },
            Err(_) => Err(CodecError::InvalidData(p)),
        },
        Primitive::Bool => match read_bool(buffer) {
            Ok(v) => {
                assert(buffer@ == old(buffer)@.skip(1));
                Ok(JsonValue::Bool(v))
            },
            Err(_) => Err(CodecError::InvalidData(p)),
        },
    }
}

/// Reads `count` values of the type that `declaration` names.
fn deserialize_items(
    buffer: &mut &[u8],
    schema: &Schema,
    declaration: &str,
    count: u64,
    depth: usize,
) -> (r: Result<Vec<JsonValue>, CodecError>)
    ensures
        decoded_items(
            r,
            final(buffer)@,
            decode_items(schema@, declaration@, count as nat, old(buffer)@, depth as nat),
        ),
    decreases depth, 1nat,
{
    let mut values: Vec<JsonValue> = Vec::new();
    assert(array_view(values@) =~= Seq::empty());
    let mut i: u64 = 0;
    while i < count
        invariant
            i <= count,
            decode_items(schema@, declaration@, i as nat, old(buffer)@, depth as nat) == Ok::<
                (Seq<JsonSpec>, Seq<u8>),
                CodecError,
            >((array_view(values@), buffer@)),
        decreases count - i,
    {
        let ghost before = values@;
        match deserialize_to_serde_json(buffer, schema, declaration, depth) {
            Ok(v) => {
                values.push(v);
                assert(array_view(values@) =~= array_view(before).push(v@));
            },
            Err(e) => {
                proof {
                    lemma_decode_items_error(
                        schema@,
                        declaration@,
                        count as nat,
                        (i + 1) as nat,
                        old(buffer)@,
                        depth as nat,
                    );
                }
                return Err(e);
            },
        }
        i += 1;
    }
    Ok(values)
}

/// Reads one value for each declaration of `declarations`.
fn deserialize_tuple(
    buffer: &mut &[u8],
    schema: &Schema,
    declarations: &Vec<String>,
    depth: usize,
) -> (r: Result<Vec<JsonValue>, CodecError>)
    ensures
        decoded_items(
            r,
            final(buffer)@,
            decode_tuple(schema@, names_view(declarations@), old(buffer)@, depth as nat),
        ),
    decreases depth, 1nat,
{
    let ghost decls = names_view(declarations@);
    let mut values: Vec<JsonValue> = Vec::new();
    assert(array_view(values@) =~= Seq::empty());
    assert(decls.take(0) =~= Seq::empty());
    let mut i: usize = 0;
    while i < declarations.len()
        invariant
            i <= declarations@.len(),
            decls == names_view(declarations@),
            decode_tuple(schema@, decls.take(i as int), old(buffer)@, depth as nat) == Ok::<
                (Seq<JsonSpec>, Seq<u8>),
                CodecError,
            >((array_view(values@), buffer@)),
        decreases declarations@.len() - i,
    {
        let ghost before = values@;
        proof {
            assert(decls.take(i + 1).drop_last() =~= decls.take(i as int));
            assert(decls.take(i + 1).last() == declarations@[i as int]@);
        }
        match deserialize_to_serde_json(buffer, schema, declarations[i].as_str(), depth) {
            Ok(v) => {
                values.push(v);
                assert(array_view(values@) =~= array_view(before).push(v@));
            },
            Err(e) => {
                proof {
                    lemma_decode_tuple_error(schema@, decls, i + 1, old(buffer)@, depth as nat);
                }
                return Err(e);
            },
        }
        i += 1;
    }
    assert(decls.take(i as int) =~= decls);
    Ok(values)
}

/// Reads one member for each field of `fields`, which has no name twice.
fn deserialize_fields(
    buffer: &mut &[u8],
    schema: &Schema,
    fields: &Vec<(String, String)>,
    depth: usize,
) -> (r: Result<JsonValue, CodecError>)
    requires
        !has_duplicates(field_names(pairs_view(fields@))),
    ensures
        match decode_fields(schema@, pairs_view(fields@), old(buffer)@, depth as nat) {
            Ok((m, rest)) => r matches Ok(got) && got@ == JsonSpec::Object(m) && final(buffer)@
                == rest,
            Err(e) => r matches Err(got) && got == e,
        },
    decreases depth, 1nat,
{
    let ghost fs = pairs_view(fields@);
    let ghost names = field_names(fs);
    let mut entries: Vec<(String, JsonValue)> = Vec::new();
    assert(object_view(entries@) =~= Map::empty());
    assert(fs.take(0) =~= Seq::empty());
    let mut i: usize = 0;
    while i < fields.len()
        invariant
            i <= fields@.len(),
            fs == pairs_view(fields@),
            names == field_names(fs),
            !has_duplicates(names),
            decode_fields(schema@, fs.take(i as int), old(buffer)@, depth as nat) == Ok::<
                (Map<Seq<char>, JsonSpec>, Seq<u8>),
                CodecError,
            >((object_view(entries@), buffer@)),
            forall|k: Seq<char>| #[trigger]
                object_view(entries@).contains_key(k) ==> exists|j: int|
                    0 <= j < i && names[j] == k,
        decreases fields@.len() - i,
    {
        let ghost before = entries@;
        proof {
            assert(fs.take(i + 1).drop_last() =~= fs.take(i as int));
            assert(fs.take(i + 1).last() == (fields@[i as int].0@, fields@[i as int].1@));
        }
        match deserialize_to_serde_json(buffer, schema, fields[i].1.as_str(), depth) {
            Ok(v) => {
                let name = fields[i].0.clone();
                proof {
                    assert(name@ == names[i as int]);
                    if object_view(before).contains_key(name@) {
                        let j = choose|j: int| 0 <= j < i && names[j] == name@;
                        assert(names[j] == names[i as int]);
                    }
                    lemma_object_view_push(before, (name, v));
                }
                entries.push((name, v));
                proof {
                    assert forall|k: Seq<char>| #[trigger]
                        object_view(entries@).contains_key(k) implies exists|j: int|
                        0 <= j < i + 1 && names[j] == k by {
                        if k == names[i as int] {
                        } else {
                            assert(object_view(before).contains_key(k));
                            let j = choose|j: int| 0 <= j < i && names[j] == k;
                            assert(0 <= j < i + 1 && names[j] == k);
                        }
                    }
                }
            },
            Err(e) => {
                proof {
                    lemma_decode_fields_error(schema@, fs, i + 1, old(buffer)@, depth as nat);
                }
                return Err(e);
            },
        }
        i += 1;
    }
    assert(fs.take(i as int) =~= fs);
    Ok(JsonValue::Object(entries))
}

/// An array of the items that were read.
fn array_of(r: Result<Vec<JsonValue>, CodecError>) -> (out: Result<JsonValue, CodecError>)
    ensures
        match r {
            Ok(items) => out matches Ok(v) && v@ == JsonSpec::Array(array_view(items@)),
            Err(e) => out matches Err(got) && got == e,
        },
{
    match r {
        Ok(items) => Ok(JsonValue::Array(items)),
        Err(e) => Err(e),
    }
}

/// Reads a value of the type that `declaration` names.
///
/// A primitive name is read directly. A name without a definition reads nothing and
/// gives `null`. Any other name is read as its definition says, which costs one of
/// the `depth` levels that are left.
pub fn deserialize_to_serde_json(
    buffer: &mut &[u8],
    schema: &Schema,
    declaration: &str,
    depth: usize,
) -> (r: Result<JsonValue, CodecError>)
    ensures
        decoded(
            r,
            final(buffer)@,
            decode_value(schema@, declaration@, old(buffer)@, depth as nat),
        ),
    decreases depth, 0nat,
{
    if let Some(p) = Primitive::from_name(declaration) {
        return deserialize_to_serde_json_by_type(buffer, p);
    }
    let definition = match schema.get_definition(declaration) {
        Some(definition) => definition,
        None => {
            return Ok(JsonValue::Null);
        },
    };
    if depth == 0 {
        return Err(CodecError::DepthExceeded);
    }
    match definition {
        Definition::Primitive(_) => deserialize_to_serde_json(
            buffer,
            schema,
            declaration,
            depth - 1,
        ),
        Definition::Sequence { length_width, length_range, elements } => {
            if *length_width == 0 {
                if length_range.start > length_range.end {
                    return Err(CodecError::LengthOutOfRange);
                }
                array_of(
                    deserialize_items(
                        buffer,
                        schema,
                        elements.as_str(),
                        length_range.end,
                        depth - 1,
                    ),
                )
            } else if !(*length_width == 1 || *length_width == 2 || *length_width == 4
                || *length_width == 8) {
                Err(CodecError::InvalidWidth)
            } else {
                let count = match read_prefix(buffer, *length_width) {
                    Ok(count) => count,
                    Err(_) => {
                        return Err(CodecError::Underflow);
                    },
                };
                if count < length_range.start || count > length_range.end {
                    return Err(CodecError::LengthOutOfRange);
                }
                array_of(deserialize_items(buffer, schema, elements.as_str(), count, depth - 1))
            }
        },
        Definition::Tuple { elements } => array_of(
            deserialize_tuple(buffer, schema, elements, depth - 1),
        ),
        Definition::Enum { tag_width, variants } => {
            if variants.len() == 0 {
                return Err(CodecError::EmptyEnum);
            }
            if !(*tag_width == 1 || *tag_width == 2 || *tag_width == 4 || *tag_width == 8) {
                return Err(CodecError::InvalidWidth);
            }
            let tag = match read_prefix(buffer, *tag_width) {
                Ok(tag) => tag,
                Err(_) => {
                    return Err(CodecError::Underflow);
                },
            };
            if tag >= variants.len() as u64 {
                return Err(CodecError::TagOutOfRange);
            }
            let position = tag as usize;
            match deserialize_to_serde_json(
                buffer,
                schema,
                variants[position].2.as_str(),
                depth - 1,
            ) {
                Ok(payload) => {
                    let name = variants[position].1.clone();
                    let mut entries: Vec<(String, JsonValue)> = Vec::new();
                    proof {
                        assert(object_view(entries@) =~= Map::empty());
                        lemma_object_view_push(entries@, (name, payload));
                    }
                    entries.push((name, payload));
                    Ok(JsonValue::Object(entries))
                },
                Err(e) => Err(e),
            }
        },
        Definition::Struct { fields } => match fields {
            Fields::NamedFields(fields) => {
                if has_duplicate_names(fields) {
                    return Err(CodecError::DuplicateField);
                }
                deserialize_fields(buffer, schema, fields, depth - 1)
            },
            Fields::UnnamedFields(fields) => {
                if fields.len() == 1 {
                    return deserialize_to_serde_json(
                        buffer,
                        schema,
                        fields[0].as_str(),
                        depth - 1,
                    );
                }
                array_of(deserialize_tuple(buffer, schema, fields, depth - 1))
            },
            Fields::Empty => {
                let items: Vec<JsonValue> = Vec::new();
                assert(array_view(items@) =~= Seq::empty());
                Ok(JsonValue::Array(items))
            },
        },
    }
}

} // verus!
