//! The encoder: from a JSON value to bytes, led by a schema.
use crate::codec::{
    array_of_length, encode, encode_fields, encode_items, encode_primitive, encode_tuple,
    encode_value, enum_choice, fits_signed, has_duplicate_names, lemma_encode_fields_error,
    lemma_encode_items_error, lemma_encode_tuple_error, variant_names, written_of,
    written_of_fields, written_of_items, written_of_tuple, written_of_value, MAX_DEPTH,
};
use crate::errors::{CodecError, ExpectationError};
use crate::float_bits::{double_is_nan, narrow, single_is_nan};
use crate::json::{array_view, object_get, object_single_key, object_view, JsonValue};
use crate::names::name_eq;
use crate::schema::{
    first_index, is_first_at, lemma_first_index_absent, lemma_first_index_found, names_view,
    pairs_view, variants_view, Definition, Fields, Primitive, Schema,
};
use crate::wire::{
    fits_width, le_bytes, lemma_pow256_values, write_bool, write_i16, write_i32, write_i64, write_i8,
    write_prefix, write_string, write_u16, write_u32, write_u64, write_u8,
};
use vstd::prelude::*;
use vstd::string::*;
use vstd::utf8::*;

verus! {

/// What an encoder leaves behind: where the rules give bytes, it succeeds and has
/// appended exactly those; where they give an error, it returns that error and has
/// appended exactly `stopped`, the bytes that the rules say are written before the
/// error.
pub open spec fn written(
    before: Seq<u8>,
    after: Seq<u8>,
    r: Result<(), CodecError>,
    expected: Result<Seq<u8>, CodecError>,
    stopped: Seq<u8>,
) -> bool {
    match expected {
        Ok(bytes) => r is Ok && after == before + bytes,
        Err(e) => r == Err::<(), CodecError>(e) && after == before + stopped,
    }
}

/// Serializes a JSON value to bytes under the schema, and appends them to `writer`.
///
/// The bytes are those that [`encode`] gives for the value, and the call succeeds
/// exactly when `encode` does. On an error `writer` holds, behind what it held
/// before, the bytes of what came before the part that was refused: those that
/// [`written_of`] gives. A value that is refused as a whole leaves `writer` as it was.
pub fn serialize_serde_json_to_borsh(writer: &mut Vec<u8>, value: &JsonValue, schema: &Schema) -> (r:
    Result<(), CodecError>)
    ensures
        written(old(writer)@, final(writer)@, r, encode(schema@, value@), written_of(schema@, value@)),
{
    serialize_serde_json_by_declaration_with_schema(
        writer,
        value,
        schema,
        schema.declaration().as_str(),
        MAX_DEPTH,
    )
}

/// The error for an array that should have `n` items.
fn array_length_error(n: u64) -> (r: CodecError)
    ensures
        r == CodecError::Expectation(array_of_length(n as nat)),
{
    if n <= 0xffff_ffff {
        CodecError::Expectation(ExpectationError::ArrayOfLength(n as u32))
    } else {
        CodecError::Expectation(ExpectationError::Array)
    }
}

/// Writes a JSON number as an unsigned integer of the width of `p`. A value that is
/// refused leaves `writer` as it was.
fn serialize_unsigned_to_borsh(writer: &mut Vec<u8>, value: &JsonValue, p: Primitive) -> (r: Result<
    (),
    CodecError,
>)
    requires
        p == Primitive::U8 || p == Primitive::U16 || p == Primitive::U32 || p == Primitive::U64,
    ensures
        written(old(writer)@, final(writer)@, r, encode_primitive(p, value@), Seq::empty()),
        r is Err ==> final(writer)@ == old(writer)@,
{
    proof {
        lemma_pow256_values();
    }
    let n = match value.as_u64() {
        Some(n) => n,
        None => {
            assert(writer@ =~= writer@ + Seq::<u8>::empty());
            return Err(CodecError::Expectation(ExpectationError::Number));
        },
    };
    let fits = match p {
        Primitive::U8 => n <= 0xff,
        Primitive::U16 => n <= 0xffff,
        Primitive::U32 => n <= 0xffff_ffff,
        _ => true,
    };
    if !fits {
        assert(writer@ =~= writer@ + Seq::<u8>::empty());
        return Err(CodecError::OutOfRange(p));
    }
    match p {
        Primitive::U8 => write_u8(writer, n as u8),
        Primitive::U16 => write_u16(writer, n as u16),
        Primitive::U32 => write_u32(writer, n as u32),
        _ => write_u64(writer, n),
    }
    Ok(())
}

/// Writes a JSON number as a signed integer of the width of `p`. A value that is
/// refused leaves `writer` as it was.
fn serialize_signed_to_borsh(writer: &mut Vec<u8>, value: &JsonValue, p: Primitive) -> (r: Result<
    (),
    CodecError,
>)
    requires
        p == Primitive::I8 || p == Primitive::I16 || p == Primitive::I32 || p == Primitive::I64,
    ensures
        written(old(writer)@, final(writer)@, r, encode_primitive(p, value@), Seq::empty()),
        r is Err ==> final(writer)@ == old(writer)@,
{
    proof {
        lemma_pow256_values();
    }
    let n = match value.as_i64() {
        Some(n) => n,
        None => {
            assert(writer@ =~= writer@ + Seq::<u8>::empty());
            return Err(CodecError::Expectation(ExpectationError::Number));
        },
    };
    let fits = match p {
        Primitive::I8 => -0x80 <= n && n <= 0x7f,
        Primitive::I16 => -0x8000 <= n && n <= 0x7fff,
        Primitive::I32 => -0x8000_0000 <= n && n <= 0x7fff_ffff,
        _ => true,
    };
    assert(fits == fits_signed(n as int, p.spec_width()));
    if !fits {
        assert(writer@ =~= writer@ + Seq::<u8>::empty());
        return Err(CodecError::OutOfRange(p));
    }
    match p {
        Primitive::I8 => write_i8(writer, n as i8),
        Primitive::I16 => write_i16(writer, n as i16),
        Primitive::I32 => write_i32(writer, n as i32),
        _ => write_i64(writer, n),
    }
    Ok(())
}

/// Writes a JSON leaf as the primitive `p`. A value that is refused leaves `writer`
/// as it was.
fn serialize_serde_json_to_borsh_by_type(
    writer: &mut Vec<u8>,
    value: &JsonValue,
    p: Primitive,
) -> (r: Result<(), CodecError>)
    ensures
        written(old(writer)@, final(writer)@, r, encode_primitive(p, value@), Seq::empty()),
        r is Err ==> final(writer)@ == old(writer)@,
{
    assert(writer@ =~= writer@ + Seq::<u8>::empty());
    match p {
        Primitive::U8 | Primitive::U16 | Primitive::U32 | Primitive::U64 => {
            serialize_unsigned_to_borsh(writer, value, p)
        },
        Primitive::I8 | Primitive::I16 | Primitive::I32 | Primitive::I64 => {
            serialize_signed_to_borsh(writer, value, p)
        },
        Primitive::U128 | Primitive::I128 => Err(CodecError::Unsupported(p)),
        Primitive::Float32 => match value.as_double() {
            None => Err(CodecError::Expectation(ExpectationError::Number)),
            Some(b) => {
                let n = narrow(b);
                if single_is_nan(n) {
                    Err(CodecError::OutOfRange(p))
                } else {
                    write_u32(writer, n);
                    Ok(())
                }
            },
        },
        Primitive::Float64 => match value.as_double() {
            None => Err(CodecError::Expectation(ExpectationError::Number)),
            Some(b) => {
                if double_is_nan(b) {
                    Err(CodecError::OutOfRange(p))
                } else {
                    write_u64(writer, b);
                    Ok(())
                }
            },
        },
        Primitive::String => match value.as_str() {
            None => Err(CodecError::Expectation(ExpectationError::String)),
            Some(s) => match write_string(writer, s) {
                Ok(()) => {
                    assert(writer@ =~= old(writer)@ + (le_bytes(
                        encode_utf8(s@).len(),
                        4,
                    ) + encode_utf8(s@)));
                    Ok(())
                },
                Err(_) => Err(CodecError::LengthMismatch),
            },
        },
        Primitive::Bool => match value.as_bool() {
            None => Err(CodecError::Expectation(ExpectationError::Boolean)),
            Some(b) => {
                write_bool(writer, b);
                Ok(())
            },
        },
    }
}

/// The position of the first variant called `name`.
fn find_variant(variants: &Vec<(i64, String, String)>, name: &str) -> (r: Option<usize>)
    ensures
        r matches Some(i) ==> i < variants@.len() && first_index(
            variant_names(variants_view(variants@)),
            name@,
        ) == Some(i as int),
        r is None ==> first_index(variant_names(variants_view(variants@)), name@) is None,
{
    let ghost names = variant_names(variants_view(variants@));
    let mut i: usize = 0;
    while i < variants.len()
        invariant
            i <= variants@.len(),
            names == variant_names(variants_view(variants@)),
            forall|j: int| 0 <= j < i ==> names[j] != name@,
        decreases variants@.len() - i,
    {
        if name_eq(variants[i].1.as_str(), name) {
            proof {
                assert(is_first_at(names, name@, i as int));
                lemma_first_index_found(names, name@, i as int);
            }
            return Some(i);
        }
        i += 1;
    }
    proof {
        lemma_first_index_absent(names, name@);
    }
    None
}

/// Writes the items of an array, each as the type that `declaration` names. It
/// stops at the first item that is refused.
fn serialize_items(
    writer: &mut Vec<u8>,
    items: &Vec<JsonValue>,
    schema: &Schema,
    declaration: &str,
    depth: usize,
) -> (r: Result<(), CodecError>)
    ensures
        written(
            old(writer)@,
            final(writer)@,
            r,
            encode_items(schema@, declaration@, array_view(items@), depth as nat),
            written_of_items(schema@, declaration@, array_view(items@), depth as nat),
        ),
    decreases depth, 1nat,
{
    let ghost all = array_view(items@);
    let ghost mut acc: Seq<u8> = Seq::empty();
    assert(all.take(0) =~= Seq::empty());
    assert(writer@ =~= old(writer)@ + acc);
    let mut i: usize = 0;
    while i < items.len()
        invariant
            i <= items@.len(),
            all == array_view(items@),
            encode_items(schema@, declaration@, all.take(i as int), depth as nat) == Ok::<
                Seq<u8>,
                CodecError,
            >(acc),
            writer@ == old(writer)@ + acc,
        decreases items@.len() - i,
    {
        let r = serialize_serde_json_by_declaration_with_schema(
            writer,
            &items[i],
            schema,
            declaration,
            depth,
        );
        proof {
            assert(all.take(i + 1).drop_last() =~= all.take(i as int));
            assert(all.take(i + 1).last() == items@[i as int]@);
        }
        match r {
            Ok(()) => {
                proof {
                    let b = encode_value(schema@, declaration@, items@[i as int]@, depth as nat)->Ok_0;
                    assert(writer@ =~= old(writer)@ + (acc + b));
                    acc = acc + b;
                }
            },
            Err(e) => {
                proof {
                    lemma_encode_items_error(schema@, declaration@, all, i + 1, depth as nat);
                    assert(writer@ =~= old(writer)@ + (acc + written_of_value(schema@, declaration@, items@[i as int]@, depth as nat)));
                }
                return Err(e);
            },
        }
        i += 1;
    }
    assert(all.take(i as int) =~= all);
    Ok(())
}

/// Writes the items of an array, the item at each place as the type that
/// `declarations` names at that place. It stops at the first item that is refused.
fn serialize_tuple(
    writer: &mut Vec<u8>,
    items: &Vec<JsonValue>,
    schema: &Schema,
    declarations: &Vec<String>,
    depth: usize,
) -> (r: Result<(), CodecError>)
    requires
        items@.len() == declarations@.len(),
    ensures
        written(
            old(writer)@,
            final(writer)@,
            r,
            encode_tuple(schema@, names_view(declarations@), array_view(items@), depth as nat),
            written_of_tuple(
                schema@,
                names_view(declarations@),
                array_view(items@),
                depth as nat,
            ),
        ),
    decreases depth, 1nat,
{
    let ghost all = array_view(items@);
    let ghost decls = names_view(declarations@);
    let ghost mut acc: Seq<u8> = Seq::empty();
    assert(decls.take(0) =~= Seq::empty());
    assert(writer@ =~= old(writer)@ + acc);
    let mut i: usize = 0;
    while i < declarations.len()
        invariant
            i <= declarations@.len(),
            items@.len() == declarations@.len(),
            all == array_view(items@),
            decls == names_view(declarations@),
            encode_tuple(schema@, decls.take(i as int), all, depth as nat) == Ok::<
                Seq<u8>,
                CodecError,
            >(acc),
            writer@ == old(writer)@ + acc,
        decreases declarations@.len() - i,
    {
        let r = serialize_serde_json_by_declaration_with_schema(
            writer,
            &items[i],
            schema,
            declarations[i].as_str(),
            depth,
        );
        proof {
            assert(decls.take(i + 1).drop_last() =~= decls.take(i as int));
            assert(decls.take(i + 1).last() == declarations@[i as int]@);
            assert(all[i as int] == items@[i as int]@);
        }
        match r {
            Ok(()) => {
                proof {
                    let b = encode_value(
                        schema@,
                        declarations@[i as int]@,
                        items@[i as int]@,
                        depth as nat,
                    )->Ok_0;
                    assert(writer@ =~= old(writer)@ + (acc + b));
                    acc = acc + b;
                }
            },
            Err(e) => {
                proof {
                    lemma_encode_tuple_error(schema@, decls, all, i + 1, depth as nat);
                    assert(writer@ =~= old(writer)@ + (acc + written_of_value(schema@, declarations@[i as int]@, items@[i as int]@, depth as nat)));
                }
                return Err(e);
            },
        }
        i += 1;
    }
    assert(decls.take(i as int) =~= decls);
    Ok(())
}

/// Writes the members of an object that `fields` names, in the order of `fields`.
/// It stops at the first member that is missing or refused.
fn serialize_fields(
    writer: &mut Vec<u8>,
    entries: &Vec<(String, JsonValue)>,
    schema: &Schema,
    fields: &Vec<(String, String)>,
    depth: usize,
) -> (r: Result<(), CodecError>)
    ensures
        written(
            old(writer)@,
            final(writer)@,
            r,
            encode_fields(schema@, pairs_view(fields@), object_view(entries@), depth as nat),
            written_of_fields(
                schema@,
                pairs_view(fields@),
                object_view(entries@),
                depth as nat,
            ),
        ),
    decreases depth, 1nat,
{
    let ghost m = object_view(entries@);
    let ghost fs = pairs_view(fields@);
    let ghost mut acc: Seq<u8> = Seq::empty();
    assert(fs.take(0) =~= Seq::empty());
    assert(writer@ =~= old(writer)@ + acc);
    let mut i: usize = 0;
    while i < fields.len()
        invariant
            i <= fields@.len(),
            m == object_view(entries@),
            fs == pairs_view(fields@),
            encode_fields(schema@, fs.take(i as int), m, depth as nat) == Ok::<Seq<u8>, CodecError>(
                acc,
            ),
            writer@ == old(writer)@ + acc,
        decreases fields@.len() - i,
    {
        proof {
            assert(fs.take(i + 1).drop_last() =~= fs.take(i as int));
            assert(fs.take(i + 1).last() == (fields@[i as int].0@, fields@[i as int].1@));
        }
        let member = match object_get(entries, fields[i].0.as_str()) {
            Some(v) => v,
            None => {
                proof {
                    lemma_encode_fields_error(schema@, fs, m, i + 1, depth as nat);
                    assert(writer@ =~= old(writer)@ + acc);
                }
                return Err(CodecError::MissingField);
            },
        };
        let r = serialize_serde_json_by_declaration_with_schema(
            writer,
            member,
            schema,
            fields[i].1.as_str(),
            depth,
        );
        match r {
            Ok(()) => {
                proof {
                    let b = encode_value(schema@, fields@[i as int].1@, member@, depth as nat)->Ok_0;
                    assert(writer@ =~= old(writer)@ + (acc + b));
                    acc = acc + b;
                }
            },
            Err(e) => {
                proof {
                    lemma_encode_fields_error(schema@, fs, m, i + 1, depth as nat);
                    assert(writer@ =~= old(writer)@ + (acc + written_of_value(schema@, fields@[i as int].1@, member@, depth as nat)));
                }
                return Err(e);
            },
        }
        i += 1;
    }
    assert(fs.take(i as int) =~= fs);
    Ok(())
}

/// Writes `value` as the type that `declaration` names.
///
/// A primitive name is written directly. A name without a definition writes
/// nothing. Any other name is written as its definition says, which costs one of the
/// `depth` levels that are left. On an error `writer` holds what
/// [`written_of_value`] gives: the bytes of what came before the part that was
/// refused.
pub fn serialize_serde_json_by_declaration_with_schema(
    writer: &mut Vec<u8>,
    value: &JsonValue,
    schema: &Schema,
    declaration: &str,
    depth: usize,
) -> (r: Result<(), CodecError>)
    ensures
        written(
            old(writer)@,
            final(writer)@,
            r,
            encode_value(schema@, declaration@, value@, depth as nat),
            written_of_value(schema@, declaration@, value@, depth as nat),
        ),
    decreases depth, 0nat,
{
    assert(writer@ =~= writer@ + Seq::<u8>::empty());
    assert(writer@ =~= writer@ + Seq::<u8>::empty());
    if let Some(p) = Primitive::from_name(declaration) {
        return serialize_serde_json_to_borsh_by_type(writer, value, p);
    }
    let definition = match schema.get_definition(declaration) {
        Some(definition) => definition,
        None => {
            return Ok(());
        },
    };
    if depth == 0 {
        return Err(CodecError::DepthExceeded);
    }
    match definition {
        Definition::Primitive(_) => {
            serialize_serde_json_by_declaration_with_schema(
                writer,
                value,
                schema,
                declaration,
                depth - 1,
            )
        },
        Definition::Sequence { length_width, length_range, elements } => {
            let items = match value.as_array() {
                Some(items) => items,
                None => {
                    return Err(CodecError::Expectation(ExpectationError::Array));
                },
            };
            let count = items.len() as u64;
            if *length_width == 0 {
                if count != length_range.end {
                    return Err(array_length_error(length_range.end));
                }
                if length_range.start > length_range.end {
                    return Err(CodecError::LengthMismatch);
                }
                serialize_items(writer, items, schema, elements.as_str(), depth - 1)
            } else if !(*length_width == 1 || *length_width == 2 || *length_width == 4
                || *length_width == 8) {
                Err(CodecError::InvalidWidth)
            } else if count < length_range.start || count > length_range.end || !fits_width(
                count,
                *length_width,
            ) {
                Err(CodecError::LengthMismatch)
            } else {
                write_prefix(writer, count, *length_width);
                let r = serialize_items(writer, items, schema, elements.as_str(), depth - 1);
                proof {
                    let prefix = le_bytes(count as nat, *length_width as nat);
                    match encode_items(schema@, elements@, array_view(items@), (depth - 1) as nat) {
                        Ok(b) => {
                            assert(writer@ =~= old(writer)@ + (prefix + b));
                        },
                        Err(_) => {
                            assert(writer@ =~= old(writer)@ + (prefix + written_of_items(schema@, elements@, array_view(items@), (depth - 1) as nat)));
                        },
                    }
                }
                r
            }
        },
        Definition::Tuple { elements } => {
            let items = match value.as_array() {
                Some(items) => items,
                None => {
                    return Err(CodecError::Expectation(ExpectationError::Array));
                },
            };
            if items.len() != elements.len() {
                return Err(array_length_error(elements.len() as u64));
            }
            serialize_tuple(writer, items, schema, elements, depth - 1)
        },
        Definition::Enum { tag_width, variants } => {
            let empty = JsonValue::Object(Vec::new());
            assert(object_view(Seq::<(String, JsonValue)>::empty()) =~= Map::empty());
            let (name, payload): (&str, &JsonValue) = match value {
                JsonValue::Object(entries) => match object_single_key(entries) {
                    Some(k) => match object_get(entries, k) {
                        Some(v) => (k, v),
                        None => {
                            proof {
                                let m = object_view(entries@);
                                let c = choose|c: Seq<char>| m.dom() =~= set![c];
                                assert(set![c].contains(c));
                            }
                            return Err(CodecError::Expectation(ExpectationError::Object));
                        },
                    },
                    None => {
                        return Err(CodecError::Expectation(ExpectationError::Object));
                    },
                },
                JsonValue::String(s) => (s.as_str(), &empty),
                _ => {
                    return Err(CodecError::Expectation(ExpectationError::Object));
                },
            };
            assert(enum_choice(value@) == Some((name@, payload@)));
            let position = match find_variant(variants, name) {
                Some(position) => position,
                None => {
                    return Err(CodecError::UnknownVariant);
                },
            };
            if !(*tag_width == 1 || *tag_width == 2 || *tag_width == 4 || *tag_width == 8) {
                return Err(CodecError::InvalidWidth);
            }
            if !fits_width(position as u64, *tag_width) {
                return Err(CodecError::InvalidWidth);
            }
            write_prefix(writer, position as u64, *tag_width);
            let r = serialize_serde_json_by_declaration_with_schema(
                writer,
                payload,
                schema,
                variants[position].2.as_str(),
                depth - 1,
            );
            proof {
                let prefix = le_bytes(position as nat, *tag_width as nat);
                match encode_value(
                    schema@,
                    variants@[position as int].2@,
                    payload@,
                    (depth - 1) as nat,
                ) {
                    Ok(b) => {
                        assert(writer@ =~= old(writer)@ + (prefix + b));
                    },
                    Err(_) => {
                        assert(writer@ =~= old(writer)@ + (prefix + written_of_value(schema@, variants@[position as int].2@, payload@, (depth - 1) as nat)));
                    },
                }
            }
            r
        },
        Definition::Struct { fields } => match fields {
            Fields::NamedFields(fields) => {
                let entries = match value.as_object() {
                    Some(entries) => entries,
                    None => {
                        return Err(CodecError::Expectation(ExpectationError::Object));
                    },
                };
                if has_duplicate_names(fields) {
                    return Err(CodecError::DuplicateField);
                }
                serialize_fields(writer, entries, schema, fields, depth - 1)
            },
            Fields::UnnamedFields(fields) => {
                if fields.len() == 1 {
                    return serialize_serde_json_by_declaration_with_schema(
                        writer,
                        value,
                        schema,
                        fields[0].as_str(),
                        depth - 1,
                    );
                }
                let items = match value.as_array() {
                    Some(items) => items,
                    None => {
                        return Err(CodecError::Expectation(ExpectationError::Array));
                    },
                };
                if items.len() != fields.len() {
                    return Err(array_length_error(fields.len() as u64));
                }
                serialize_tuple(writer, items, schema, fields, depth - 1)
            },
            Fields::Empty => Ok(()),
        },
    }
}

} // verus!
