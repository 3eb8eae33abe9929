//! The encoding rules: what a JSON value encodes to under a schema, and what bytes
//! decode to.
//!
//! Both directions walk the schema from a declaration. A primitive name is read or
//! written directly, whatever the container holds under it. Any other name is looked
//! up: a name without a definition stands for JSON `null` and no bytes, a name with a
//! definition is handled by the definition's kind. Each definition entered costs one
//! level of depth, and the walk fails when [`MAX_DEPTH`] levels are used up.
use crate::decimal::{decimal, signed_decimal};
use crate::errors::{CodecError, ExpectationError};
use crate::float_bits::{
    double_is_finite_spec, double_is_nan_spec, narrow_spec, single_is_finite_spec,
    single_is_nan_spec, widen_spec,
};
use crate::json::{single_key, JsonSpec, NumberSpec};
use crate::names::name_eq;
use crate::schema::{
    first_index, pairs_view, primitive_of, DefinitionSpec, FieldsSpec, Primitive, SchemaSpec,
};
use crate::wire::{
    from_twos, is_prefix_width, le_bytes, le_nat, pow256, string_frame_len, string_frame_ok,
    string_payload, twos,
};
use vstd::prelude::*;
use vstd::string::*;
use vstd::utf8::*;

verus! {

/// The number of nested definitions that a value may pass through.
pub const MAX_DEPTH: usize = 256;

/// Whether the integer `n` fits a signed integer of `w` bytes.
pub open spec fn fits_signed(n: int, w: nat) -> bool {
    -(pow256(w) as int) <= 2 * n < pow256(w)
}

/// The error for an array that should have `n` items.
pub open spec fn array_of_length(n: nat) -> ExpectationError {
    if n <= u32::MAX {
        ExpectationError::ArrayOfLength(n as u32)
    } else {
        ExpectationError::Array
    }
}

/// Whether a name occurs twice.
pub open spec fn has_duplicates(names: Seq<Seq<char>>) -> bool {
    exists|i: int, j: int| 0 <= i < j < names.len() && names[i] == names[j]
}

/// The names of the fields of a struct.
pub open spec fn field_names(fields: Seq<(Seq<char>, Seq<char>)>) -> Seq<Seq<char>> {
    Seq::new(fields.len(), |i: int| fields[i].0)
}

/// Whether two fields have the same name.
pub fn has_duplicate_names(fields: &Vec<(String, String)>) -> (r: bool)
    ensures
        r == has_duplicates(field_names(pairs_view(fields@))),
{
    let ghost names = field_names(pairs_view(fields@));
    let mut j: usize = 0;
    while j < fields.len()
        invariant
            j <= fields@.len(),
            names == field_names(pairs_view(fields@)),
            forall|a: int, b: int| 0 <= a < b < j ==> names[a] != names[b],
        decreases fields@.len() - j,
    {
        let mut i: usize = 0;
        while i < j
            invariant
                i <= j < fields@.len(),
                names == field_names(pairs_view(fields@)),
                forall|a: int| 0 <= a < i ==> names[a] != names[j as int],
            decreases j - i,
        {
            if name_eq(fields[i].0.as_str(), fields[j].0.as_str()) {
                assert(names[i as int] == names[j as int]);
                return true;
            }
            i += 1;
        }
        j += 1;
    }
    false
}

/// The names of the variants of an enum.
pub open spec fn variant_names(variants: Seq<(i64, Seq<char>, Seq<char>)>) -> Seq<Seq<char>> {
    Seq::new(variants.len(), |i: int| variants[i].1)
}

/// The variant that a JSON value names, and the payload it gives: the one member of
/// an object, or a string, which stands for the variant with an empty object as
/// payload.
pub open spec fn enum_choice(v: JsonSpec) -> Option<(Seq<char>, JsonSpec)> {
    match v {
        JsonSpec::Object(m) => match single_key(m) {
            Some(k) => Some((k, m[k])),
            None => None,
        },
        JsonSpec::String(s) => Some((s, JsonSpec::Object(Map::empty()))),
        _ => None,
    }
}

/// The bytes of a primitive value.
pub open spec fn encode_primitive(p: Primitive, v: JsonSpec) -> Result<Seq<u8>, CodecError> {
    match p {
        Primitive::U8 | Primitive::U16 | Primitive::U32 | Primitive::U64 => match v.as_u64() {
            None => Err(CodecError::Expectation(ExpectationError::Number)),
            Some(n) => if n < pow256(p.spec_width()) {
                Ok(le_bytes(n as nat, p.spec_width()))
            } else {
                Err(CodecError::OutOfRange(p))
            },
        },
        Primitive::I8 | Primitive::I16 | Primitive::I32 | Primitive::I64 => match v.as_i64() {
            None => Err(CodecError::Expectation(ExpectationError::Number)),
            Some(n) => if fits_signed(n as int, p.spec_width()) {
                Ok(le_bytes(twos(n as int, p.spec_width()), p.spec_width()))
            } else {
                Err(CodecError::OutOfRange(p))
            },
        },
        Primitive::U128 | Primitive::I128 => Err(CodecError::Unsupported(p)),
        Primitive::Float32 => match v.as_double() {
            None => Err(CodecError::Expectation(ExpectationError::Number)),
            Some(b) => if single_is_nan_spec(narrow_spec(b)) {
                Err(CodecError::OutOfRange(p))
            } else {
                Ok(le_bytes(narrow_spec(b) as nat, 4))
            },
        },
        Primitive::Float64 => match v.as_double() {
            None => Err(CodecError::Expectation(ExpectationError::Number)),
            Some(b) => if double_is_nan_spec(b) {
                Err(CodecError::OutOfRange(p))
            } else {
                Ok(le_bytes(b as nat, 8))
            },
        },
        Primitive::String => match v {
            JsonSpec::String(s) => if encode_utf8(s).len() <= u32::MAX {
                Ok(le_bytes(encode_utf8(s).len(), 4) + encode_utf8(s))
            } else {
                Err(CodecError::LengthMismatch)
            },
            _ => Err(CodecError::Expectation(ExpectationError::String)),
        },
        Primitive::Bool => match v {
            JsonSpec::Bool(b) => Ok(
                seq![if b {
                    1u8
                } else {
                    0u8
                }],
            ),
            _ => Err(CodecError::Expectation(ExpectationError::Boolean)),
        },
    }
}

/// The JSON leaf that the bytes of a primitive stand for, and the bytes behind it.
pub open spec fn decode_primitive(p: Primitive, bytes: Seq<u8>) -> Result<
    (JsonSpec, Seq<u8>),
    CodecError,
> {
    let w = p.spec_width();
    let n = le_nat(bytes.take(w as int));
    let rest = bytes.skip(w as int);
    match p {
        Primitive::String => if string_frame_ok(bytes) {
            Ok(
                (
                    JsonSpec::String(decode_utf8(string_payload(bytes))),
                    bytes.skip(string_frame_len(bytes) as int),
                ),
            )
        } else {
            Err(CodecError::InvalidData(p))
        },
        _ => if bytes.len() < w {
            Err(CodecError::InvalidData(p))
        } else {
            match p {
                Primitive::U8 | Primitive::U16 | Primitive::U32 | Primitive::U64 => Ok(
                    (JsonSpec::Number(NumberSpec::Int(n as int)), rest),
                ),
                Primitive::I8 | Primitive::I16 | Primitive::I32 | Primitive::I64 => Ok(
                    (JsonSpec::Number(NumberSpec::Int(from_twos(n, w))), rest),
                ),
                Primitive::U128 => Ok((JsonSpec::String(decimal(n)), rest)),
                Primitive::I128 => Ok((JsonSpec::String(signed_decimal(from_twos(n, w))), rest)),
                Primitive::Float32 => if single_is_nan_spec(n as u32) {
                    Err(CodecError::InvalidData(p))
                } else if single_is_finite_spec(n as u32) {
                    Ok((JsonSpec::Number(NumberSpec::Float(widen_spec(n as u32))), rest))
                } else {
                    Ok((JsonSpec::Null, rest))
                },
                Primitive::Float64 => if double_is_nan_spec(n as u64) {
                    Err(CodecError::InvalidData(p))
                } else if double_is_finite_spec(n as u64) {
                    Ok((JsonSpec::Number(NumberSpec::Float(n as u64)), rest))
                } else {
                    Ok((JsonSpec::Null, rest))
                },
                Primitive::Bool => if bytes[0] <= 1 {
                    Ok((JsonSpec::Bool(bytes[0] == 1), rest))
                } else {
                    Err(CodecError::InvalidData(p))
                },
                Primitive::String => Err(CodecError::InvalidData(p)),
            }
        },
    }
}

/// The bytes of `first` followed by those of `second`, or the first error.
pub open spec fn then_bytes(
    first: Result<Seq<u8>, CodecError>,
    second: Result<Seq<u8>, CodecError>,
) -> Result<Seq<u8>, CodecError> {
    match first {
        Err(e) => Err(e),
        Ok(a) => match second {
            Err(e) => Err(e),
            Ok(b) => Ok(a + b),
        },
    }
}

/// The bytes of the value `v` of the type that `decl` names.
///
/// An array under a sequence with a length prefix must have a length that lies in
/// the sequence's `length_range` and fits the prefix, as the decoder would refuse
/// any other; an array of another length is a shape mismatch
/// ([`CodecError::LengthMismatch`]). The same holds of a fixed count that lies
/// outside its own range. The count is written in `length_width` bytes and the
/// position of a variant in `tag_width` bytes.
pub open spec fn encode_value(s: SchemaSpec, decl: Seq<char>, v: JsonSpec, depth: nat) -> Result<
    Seq<u8>,
    CodecError,
>
    decreases depth, 0nat, 0nat,
{
    match primitive_of(decl) {
        Some(p) => encode_primitive(p, v),
        None => match s.definition(decl) {
            None => Ok(Seq::empty()),
            Some(def) => if depth == 0 {
                Err(CodecError::DepthExceeded)
            } else {
                let d = (depth - 1) as nat;
                match def {
                    DefinitionSpec::Primitive(_) => encode_value(s, decl, v, d),
                    DefinitionSpec::Sequence { length_width, length_range, elements } => match v {
                        JsonSpec::Array(items) => if length_width == 0 {
                            if items.len() != length_range.end {
                                Err(
                                    CodecError::Expectation(
                                        array_of_length(length_range.end as nat),
                                    ),
                                )
                            } else if length_range.start > length_range.end {
                                Err(CodecError::LengthMismatch)
                            } else {
                                encode_items(s, elements, items, d)
                            }
                        } else if !is_prefix_width(length_width) {
                            Err(CodecError::InvalidWidth)
                        } else if !(length_range.start <= items.len() <= length_range.end)
                            || items.len() >= pow256(length_width as nat) {
                            Err(CodecError::LengthMismatch)
                        } else {
                            then_bytes(
                                Ok(le_bytes(items.len(), length_width as nat)),
                                encode_items(s, elements, items, d),
                            )
                        },
                        _ => Err(CodecError::Expectation(ExpectationError::Array)),
                    },
                    DefinitionSpec::Tuple { elements } => match v {
                        JsonSpec::Array(items) => if items.len() == elements.len() {
                            encode_tuple(s, elements, items, d)
                        } else {
                            Err(CodecError::Expectation(array_of_length(elements.len())))
                        },
                        _ => Err(CodecError::Expectation(ExpectationError::Array)),
                    },
                    DefinitionSpec::Enum { tag_width, variants } => match enum_choice(v) {
                        None => Err(CodecError::Expectation(ExpectationError::Object)),
                        Some((name, payload)) => match first_index(
                            variant_names(variants),
                            name,
                        ) {
                            None => Err(CodecError::UnknownVariant),
                            Some(i) => if !is_prefix_width(tag_width) || i >= pow256(
                                tag_width as nat,
                            ) {
                                Err(CodecError::InvalidWidth)
                            } else {
                                then_bytes(
                                    Ok(le_bytes(i as nat, tag_width as nat)),
                                    encode_value(s, variants[i].2, payload, d),
                                )
                            },
                        },
                    },
                    DefinitionSpec::Struct { fields } => match fields {
                        FieldsSpec::NamedFields(fs) => match v {
                            JsonSpec::Object(m) => if has_duplicates(field_names(fs)) {
                                Err(CodecError::DuplicateField)
                            } else {
                                encode_fields(s, fs, m, d)
                            },
                            _ => Err(CodecError::Expectation(ExpectationError::Object)),
                        },
                        FieldsSpec::UnnamedFields(ds) => if ds.len() == 1 {
                            encode_value(s, ds[0], v, d)
                        } else {
                            match v {
                                JsonSpec::Array(items) => if items.len() == ds.len() {
                                    encode_tuple(s, ds, items, d)
                                } else {
                                    Err(CodecError::Expectation(array_of_length(ds.len())))
                                },
                                _ => Err(CodecError::Expectation(ExpectationError::Array)),
                            }
                        },
                        FieldsSpec::Empty => Ok(Seq::empty()),
                    },
                }
            },
        },
    }
}

/// The bytes of `items`, each of the type that `decl` names, one after the other.
pub open spec fn encode_items(s: SchemaSpec, decl: Seq<char>, items: Seq<JsonSpec>, depth: nat) -> Result<
    Seq<u8>,
    CodecError,
>
    decreases depth, 1nat, items.len(),
{
    if items.len() == 0 {
        Ok(Seq::empty())
    } else {
        match encode_items(s, decl, items.drop_last(), depth) {
            Err(e) => Err(e),
            Ok(a) => match encode_value(s, decl, items.last(), depth) {
                Err(e) => Err(e),
                Ok(b) => Ok(a + b),
            },
        }
    }
}

/// The bytes of `items`, the item at each place of the type that `decls` names at
/// that place. As many items are written as there are declarations.
pub open spec fn encode_tuple(
    s: SchemaSpec,
    decls: Seq<Seq<char>>,
    items: Seq<JsonSpec>,
    depth: nat,
) -> Result<Seq<u8>, CodecError>
    decreases depth, 1nat, decls.len(),
{
    if decls.len() == 0 {
        Ok(Seq::empty())
    } else {
        match encode_tuple(s, decls.drop_last(), items, depth) {
            Err(e) => Err(e),
            Ok(a) => match encode_value(s, decls.last(), items[decls.len() - 1], depth) {
                Err(e) => Err(e),
                Ok(b) => Ok(a + b),
            },
        }
    }
}

/// The bytes of the members of the object `m` that `fields` names, in the order of
/// `fields`.
pub open spec fn encode_fields(
    s: SchemaSpec,
    fields: Seq<(Seq<char>, Seq<char>)>,
    m: Map<Seq<char>, JsonSpec>,
    depth: nat,
) -> Result<Seq<u8>, CodecError>
    decreases depth, 1nat, fields.len(),
{
    if fields.len() == 0 {
        Ok(Seq::empty())
    } else {
        match encode_fields(s, fields.drop_last(), m, depth) {
            Err(e) => Err(e),
            Ok(a) => if !m.contains_key(fields.last().0) {
                Err(CodecError::MissingField)
            } else {
                match encode_value(s, fields.last().1, m[fields.last().0], depth) {
                    Err(e) => Err(e),
                    Ok(b) => Ok(a + b),
                }
            },
        }
    }
}

/// What an encoder has written of the value `v` when it stops: all the bytes of the
/// value where it can be encoded, and else the bytes of what comes before the first
/// part that cannot be. A part is refused before any of its own bytes is written; a
/// length prefix or a tag is written before the parts behind it are looked at.
pub open spec fn written_of_value(s: SchemaSpec, decl: Seq<char>, v: JsonSpec, depth: nat) -> Seq<
    u8,
>
    decreases depth, 0nat, 0nat,
{
    match encode_value(s, decl, v, depth) {
        Ok(bytes) => bytes,
        Err(_) => match primitive_of(decl) {
            Some(_) => Seq::empty(),
            None => match s.definition(decl) {
                None => Seq::empty(),
                Some(def) => if depth == 0 {
                    Seq::empty()
                } else {
                    let d = (depth - 1) as nat;
                    match def {
                        DefinitionSpec::Primitive(_) => written_of_value(s, decl, v, d),
                        DefinitionSpec::Sequence { length_width, length_range, elements } => {
                            match v {
                                JsonSpec::Array(items) => if length_width == 0 {
                                    if items.len() != length_range.end || length_range.start
                                        > length_range.end {
                                        Seq::empty()
                                    } else {
                                        written_of_items(s, elements, items, d)
                                    }
                                } else if !is_prefix_width(length_width) || !(length_range.start
                                    <= items.len() <= length_range.end) || items.len() >= pow256(
                                    length_width as nat,
                                ) {
                                    Seq::empty()
                                } else {
                                    le_bytes(items.len(), length_width as nat) + written_of_items(
                                        s,
                                        elements,
                                        items,
                                        d,
                                    )
                                },
                                _ => Seq::empty(),
                            }
                        },
                        DefinitionSpec::Tuple { elements } => match v {
                            JsonSpec::Array(items) => if items.len() == elements.len() {
                                written_of_tuple(s, elements, items, d)
                            } else {
                                Seq::empty()
                            },
                            _ => Seq::empty(),
                        },
                        DefinitionSpec::Enum { tag_width, variants } => match enum_choice(v) {
                            None => Seq::empty(),
                            Some((name, payload)) => match first_index(
                                variant_names(variants),
                                name,
                            ) {
                                None => Seq::empty(),
                                Some(i) => if !is_prefix_width(tag_width) || i >= pow256(
                                    tag_width as nat,
                                ) {
                                    Seq::empty()
                                } else {
                                    le_bytes(i as nat, tag_width as nat) + written_of_value(
                                        s,
                                        variants[i].2,
                                        payload,
                                        d,
                                    )
                                },
                            },
                        },
                        DefinitionSpec::Struct { fields } => match fields {
                            FieldsSpec::NamedFields(fs) => match v {
                                JsonSpec::Object(m) => if has_duplicates(field_names(fs)) {
                                    Seq::empty()
                                } else {
                                    written_of_fields(s, fs, m, d)
                                },
                                _ => Seq::empty(),
                            },
                            FieldsSpec::UnnamedFields(ds) => if ds.len() == 1 {
                                written_of_value(s, ds[0], v, d)
                            } else {
                                match v {
                                    JsonSpec::Array(items) => if items.len() == ds.len() {
                                        written_of_tuple(s, ds, items, d)
                                    } else {
                                        Seq::empty()
                                    },
                                    _ => Seq::empty(),
                                }
                            },
                            FieldsSpec::Empty => Seq::empty(),
                        },
                    }
                },
            },
        },
    }
}

/// What an encoder has written of `items` when it stops: the bytes of the items
/// before the first one that cannot be encoded, and what was written of that one.
pub open spec fn written_of_items(
    s: SchemaSpec,
    decl: Seq<char>,
    items: Seq<JsonSpec>,
    depth: nat,
) -> Seq<u8>
    decreases depth, 1nat, items.len(),
{
    match encode_items(s, decl, items, depth) {
        Ok(bytes) => bytes,
        Err(_) => if items.len() == 0 {
            Seq::empty()
        } else {
            match encode_items(s, decl, items.drop_last(), depth) {
                Err(_) => written_of_items(s, decl, items.drop_last(), depth),
                Ok(a) => a + written_of_value(s, decl, items.last(), depth),
            }
        },
    }
}

/// What an encoder has written of the items of a tuple when it stops.
pub open spec fn written_of_tuple(
    s: SchemaSpec,
    decls: Seq<Seq<char>>,
    items: Seq<JsonSpec>,
    depth: nat,
) -> Seq<u8>
    decreases depth, 1nat, decls.len(),
{
    match encode_tuple(s, decls, items, depth) {
        Ok(bytes) => bytes,
        Err(_) => if decls.len() == 0 {
            Seq::empty()
        } else {
            match encode_tuple(s, decls.drop_last(), items, depth) {
                Err(_) => written_of_tuple(s, decls.drop_last(), items, depth),
                Ok(a) => a + written_of_value(s, decls.last(), items[decls.len() - 1], depth),
            }
        },
    }
}

/// What an encoder has written of the members of an object when it stops. A member
/// that the object lacks stops it with nothing written for that member.
pub open spec fn written_of_fields(
    s: SchemaSpec,
    fields: Seq<(Seq<char>, Seq<char>)>,
    m: Map<Seq<char>, JsonSpec>,
    depth: nat,
) -> Seq<u8>
    decreases depth, 1nat, fields.len(),
{
    match encode_fields(s, fields, m, depth) {
        Ok(bytes) => bytes,
        Err(_) => if fields.len() == 0 {
            Seq::empty()
        } else {
            match encode_fields(s, fields.drop_last(), m, depth) {
                Err(_) => written_of_fields(s, fields.drop_last(), m, depth),
                Ok(a) => if !m.contains_key(fields.last().0) {
                    a
                } else {
                    a + written_of_value(s, fields.last().1, m[fields.last().0], depth)
                },
            }
        },
    }
}

/// What an encoder has written of `v` under the schema `s` when it stops.
pub open spec fn written_of(s: SchemaSpec, v: JsonSpec) -> Seq<u8> {
    written_of_value(s, s.declaration, v, MAX_DEPTH as nat)
}

/// An array of the decoded items.
pub open spec fn as_array(r: Result<(Seq<JsonSpec>, Seq<u8>), CodecError>) -> Result<
    (JsonSpec, Seq<u8>),
    CodecError,
> {
    match r {
        Ok((items, rest)) => Ok((JsonSpec::Array(items), rest)),
        Err(e) => Err(e),
    }
}

/// The value of the type that `decl` names at the front of `bytes`, and the bytes
/// behind it.
pub open spec fn decode_value(s: SchemaSpec, decl: Seq<char>, bytes: Seq<u8>, depth: nat) -> Result<
    (JsonSpec, Seq<u8>),
    CodecError,
>
    decreases depth, 0nat, 0nat,
{
    match primitive_of(decl) {
        Some(p) => decode_primitive(p, bytes),
        None => match s.definition(decl) {
            None => Ok((JsonSpec::Null, bytes)),
            Some(def) => if depth == 0 {
                Err(CodecError::DepthExceeded)
            } else {
                let d = (depth - 1) as nat;
                match def {
                    DefinitionSpec::Primitive(_) => decode_value(s, decl, bytes, d),
                    DefinitionSpec::Sequence { length_width, length_range, elements } => {
                        if length_width == 0 {
                            if length_range.start <= length_range.end {
                                as_array(
                                    decode_items(s, elements, length_range.end as nat, bytes, d),
                                )
                            } else {
                                Err(CodecError::LengthOutOfRange)
                            }
                        } else if !is_prefix_width(length_width) {
                            Err(CodecError::InvalidWidth)
                        } else if bytes.len() < length_width {
                            Err(CodecError::Underflow)
                        } else {
                            let n = le_nat(bytes.take(length_width as int));
                            if !(length_range.start <= n <= length_range.end) {
                                Err(CodecError::LengthOutOfRange)
                            } else {
                                as_array(
                                    decode_items(
                                        s,
                                        elements,
                                        n,
                                        bytes.skip(length_width as int),
                                        d,
                                    ),
                                )
                            }
                        }
                    },
                    DefinitionSpec::Tuple { elements } => as_array(
                        decode_tuple(s, elements, bytes, d),
                    ),
                    DefinitionSpec::Enum { tag_width, variants } => if variants.len() == 0 {
                        Err(CodecError::EmptyEnum)
                    } else if !is_prefix_width(tag_width) {
                        Err(CodecError::InvalidWidth)
                    } else if bytes.len() < tag_width {
                        Err(CodecError::Underflow)
                    } else {
                        let i = le_nat(bytes.take(tag_width as int)) as int;
                        if i >= variants.len() {
                            Err(CodecError::TagOutOfRange)
                        } else {
                            match decode_value(
                                s,
                                variants[i].2,
                                bytes.skip(tag_width as int),
                                d,
                            ) {
                                Ok((payload, rest)) => Ok(
                                    (
                                        JsonSpec::Object(Map::empty().insert(variants[i].1, payload)),
                                        rest,
                                    ),
                                ),
                                Err(e) => Err(e),
                            }
                        }
                    },
                    DefinitionSpec::Struct { fields } => match fields {
                        FieldsSpec::NamedFields(fs) => if has_duplicates(field_names(fs)) {
                            Err(CodecError::DuplicateField)
                        } else {
                            match decode_fields(s, fs, bytes, d) {
                                Ok((m, rest)) => Ok((JsonSpec::Object(m), rest)),
                                Err(e) => Err(e),
                            }
                        },
                        FieldsSpec::UnnamedFields(ds) => if ds.len() == 1 {
                            decode_value(s, ds[0], bytes, d)
                        } else {
                            as_array(decode_tuple(s, ds, bytes, d))
                        },
                        FieldsSpec::Empty => Ok((JsonSpec::Array(Seq::empty()), bytes)),
                    },
                }
            },
        },
    }
}

/// `n` values of the type that `decl` names, one after the other at the front of
/// `bytes`, and the bytes behind them.
pub open spec fn decode_items(s: SchemaSpec, decl: Seq<char>, n: nat, bytes: Seq<u8>, depth: nat) -> Result<
    (Seq<JsonSpec>, Seq<u8>),
    CodecError,
>
    decreases depth, 1nat, n,
{
    if n == 0 {
        Ok((Seq::empty(), bytes))
    } else {
        match decode_items(s, decl, (n - 1) as nat, bytes, depth) {
            Err(e) => Err(e),
            Ok((items, rest)) => match decode_value(s, decl, rest, depth) {
                Err(e) => Err(e),
                Ok((v, rest2)) => Ok((items.push(v), rest2)),
            },
        }
    }
}

/// One value for each declaration of `decls`, one after the other at the front of
/// `bytes`, and the bytes behind them.
pub open spec fn decode_tuple(s: SchemaSpec, decls: Seq<Seq<char>>, bytes: Seq<u8>, depth: nat) -> Result<
    (Seq<JsonSpec>, Seq<u8>),
    CodecError,
>
    decreases depth, 1nat, decls.len(),
{
    if decls.len() == 0 {
        Ok((Seq::empty(), bytes))
    } else {
        match decode_tuple(s, decls.drop_last(), bytes, depth) {
            Err(e) => Err(e),
            Ok((items, rest)) => match decode_value(s, decls.last(), rest, depth) {
                Err(e) => Err(e),
                Ok((v, rest2)) => Ok((items.push(v), rest2)),
            },
        }
    }
}

/// One member for each field of `fields`, decoded one after the other from the front
/// of `bytes`, and the bytes behind them.
pub open spec fn decode_fields(
    s: SchemaSpec,
    fields: Seq<(Seq<char>, Seq<char>)>,
    bytes: Seq<u8>,
    depth: nat,
) -> Result<(Map<Seq<char>, JsonSpec>, Seq<u8>), CodecError>
    decreases depth, 1nat, fields.len(),
{
    if fields.len() == 0 {
        Ok((Map::empty(), bytes))
    } else {
        match decode_fields(s, fields.drop_last(), bytes, depth) {
            Err(e) => Err(e),
            Ok((m, rest)) => match decode_value(s, fields.last().1, rest, depth) {
                Err(e) => Err(e),
                Ok((v, rest2)) => Ok((m.insert(fields.last().0, v), rest2)),
            },
        }
    }
}

/// The bytes of `v` under the schema `s`.
pub open spec fn encode(s: SchemaSpec, v: JsonSpec) -> Result<Seq<u8>, CodecError> {
    encode_value(s, s.declaration, v, MAX_DEPTH as nat)
}

/// The value at the front of `bytes` under the schema `s`, and the bytes behind it.
pub open spec fn decode(s: SchemaSpec, bytes: Seq<u8>) -> Result<(JsonSpec, Seq<u8>), CodecError> {
    decode_value(s, s.declaration, bytes, MAX_DEPTH as nat)
}

/// An error in a front part of a list of items is the error of the whole list.
pub proof fn lemma_encode_items_error(
    s: SchemaSpec,
    decl: Seq<char>,
    items: Seq<JsonSpec>,
    k: int,
    depth: nat,
)
    requires
        0 <= k <= items.len(),
        encode_items(s, decl, items.take(k), depth) is Err,
    ensures
        encode_items(s, decl, items, depth) == encode_items(s, decl, items.take(k), depth),
        written_of_items(s, decl, items, depth) == written_of_items(s, decl, items.take(k), depth),
    decreases items.len() - k,
{
    if k < items.len() {
        assert(items.take(k + 1).drop_last() =~= items.take(k));
        lemma_encode_items_error(s, decl, items, k + 1, depth);
    } else {
        assert(items.take(k) =~= items);
    }
}

/// An error in a front part of a tuple is the error of the whole tuple.
pub proof fn lemma_encode_tuple_error(
    s: SchemaSpec,
    decls: Seq<Seq<char>>,
    items: Seq<JsonSpec>,
    k: int,
    depth: nat,
)
    requires
        0 <= k <= decls.len(),
        encode_tuple(s, decls.take(k), items, depth) is Err,
    ensures
        encode_tuple(s, decls, items, depth) == encode_tuple(s, decls.take(k), items, depth),
        written_of_tuple(s, decls, items, depth) == written_of_tuple(
            s,
            decls.take(k),
            items,
            depth,
        ),
    decreases decls.len() - k,
{
    if k < decls.len() {
        assert(decls.take(k + 1).drop_last() =~= decls.take(k));
        lemma_encode_tuple_error(s, decls, items, k + 1, depth);
    } else {
        assert(decls.take(k) =~= decls);
    }
}

/// An error in a front part of the fields is the error of all the fields.
pub proof fn lemma_encode_fields_error(
    s: SchemaSpec,
    fields: Seq<(Seq<char>, Seq<char>)>,
    m: Map<Seq<char>, JsonSpec>,
    k: int,
    depth: nat,
)
    requires
        0 <= k <= fields.len(),
        encode_fields(s, fields.take(k), m, depth) is Err,
    ensures
        encode_fields(s, fields, m, depth) == encode_fields(s, fields.take(k), m, depth),
        written_of_fields(s, fields, m, depth) == written_of_fields(
            s,
            fields.take(k),
            m,
            depth,
        ),
    decreases fields.len() - k,
{
    if k < fields.len() {
        assert(fields.take(k + 1).drop_last() =~= fields.take(k));
        lemma_encode_fields_error(s, fields, m, k + 1, depth);
    } else {
        assert(fields.take(k) =~= fields);
    }
}

/// An error among the first items is the error of all of them.
pub proof fn lemma_decode_items_error(
    s: SchemaSpec,
    decl: Seq<char>,
    n: nat,
    k: nat,
    bytes: Seq<u8>,
    depth: nat,
)
    requires
        k <= n,
        decode_items(s, decl, k, bytes, depth) is Err,
    ensures
        decode_items(s, decl, n, bytes, depth) == decode_items(s, decl, k, bytes, depth),
    decreases n - k,
{
    if k < n {
        lemma_decode_items_error(s, decl, n, k + 1, bytes, depth);
    }
}

/// An error in a front part of a tuple is the error of the whole tuple.
pub proof fn lemma_decode_tuple_error(
    s: SchemaSpec,
    decls: Seq<Seq<char>>,
    k: int,
    bytes: Seq<u8>,
    depth: nat,
)
    requires
        0 <= k <= decls.len(),
        decode_tuple(s, decls.take(k), bytes, depth) is Err,
    ensures
        decode_tuple(s, decls, bytes, depth) == decode_tuple(s, decls.take(k), bytes, depth),
    decreases decls.len() - k,
{
    if k < decls.len() {
        assert(decls.take(k + 1).drop_last() =~= decls.take(k));
        lemma_decode_tuple_error(s, decls, k + 1, bytes, depth);
    } else {
        assert(decls.take(k) =~= decls);
    }
}

/// An error in a front part of the fields is the error of all the fields.
pub proof fn lemma_decode_fields_error(
    s: SchemaSpec,
    fields: Seq<(Seq<char>, Seq<char>)>,
    k: int,
    bytes: Seq<u8>,
    depth: nat,
)
    requires
        0 <= k <= fields.len(),
        decode_fields(s, fields.take(k), bytes, depth) is Err,
    ensures
        decode_fields(s, fields, bytes, depth) == decode_fields(s, fields.take(k), bytes, depth),
    decreases fields.len() - k,
{
    if k < fields.len() {
        assert(fields.take(k + 1).drop_last() =~= fields.take(k));
        lemma_decode_fields_error(s, fields, k + 1, bytes, depth);
    } else {
        assert(fields.take(k) =~= fields);
    }
}

} // verus!
