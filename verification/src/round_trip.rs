//! Decoding what was encoded gives the value back.
//!
//! [`value_matches`] says which JSON values are the values of a declaration: those
//! that the decoder can produce. For each of them the encoder succeeds, and the
//! decoder reads the value back from the bytes and stops behind them.
use crate::codec::{
    decode, decode_fields, decode_items, decode_primitive, decode_tuple, decode_value, encode,
    encode_fields, encode_items, encode_primitive, encode_tuple, encode_value, field_names,
    fits_signed, has_duplicates, variant_names, MAX_DEPTH,
};
use crate::errors::CodecError;
use crate::decimal::{decimal, signed_decimal};
use crate::float_bits::{
    double_is_finite_spec, lemma_narrow_of_widen, narrow_spec, single_is_finite_spec, widen_spec,
};
use crate::json::{single_key, JsonSpec, NumberSpec};
use crate::schema::{
    first_index, lemma_first_index_is_first, primitive_of, DefinitionSpec, FieldsSpec, Primitive,
    SchemaSpec,
};
use crate::wire::{
    from_twos, is_prefix_width, le_bytes, le_nat, lemma_from_twos_of_twos, lemma_le_bytes_len,
    lemma_le_nat_of_le_bytes, lemma_pow256_values, pow256, string_frame_len, string_payload, twos,
};
use vstd::prelude::*;
use vstd::utf8::*;

verus! {

/// Whether `v` is a value of the primitive `p`: a number within the primitive's
/// range, a float that the primitive's width holds exactly, a string whose length
/// fits the prefix, a boolean. The 128-bit integers have no such value: they cannot
/// be encoded.
pub open spec fn primitive_matches(p: Primitive, v: JsonSpec) -> bool {
    match p {
        Primitive::U8 | Primitive::U16 | Primitive::U32 | Primitive::U64 => {
            v matches JsonSpec::Number(NumberSpec::Int(i)) && 0 <= i < pow256(p.spec_width())
        },
        Primitive::I8 | Primitive::I16 | Primitive::I32 | Primitive::I64 => {
            v matches JsonSpec::Number(NumberSpec::Int(i)) && fits_signed(i, p.spec_width())
        },
        Primitive::U128 | Primitive::I128 => false,
        Primitive::Float32 => {
            v matches JsonSpec::Number(NumberSpec::Float(b)) && single_is_finite_spec(
                narrow_spec(b),
            ) && widen_spec(narrow_spec(b)) == b
        },
        Primitive::Float64 => {
            v matches JsonSpec::Number(NumberSpec::Float(b)) && double_is_finite_spec(b)
        },
        Primitive::String => {
            v matches JsonSpec::String(s) && encode_utf8(s).len() <= u32::MAX
        },
        Primitive::Bool => v is Bool,
    }
}

/// Whether `items` has a value of the declaration at each place of `decls`.
pub open spec fn tuple_matches(
    s: SchemaSpec,
    decls: Seq<Seq<char>>,
    items: Seq<JsonSpec>,
    depth: nat,
) -> bool
    decreases depth, 1nat,
{
    &&& items.len() == decls.len()
    &&& forall|i: int| 0 <= i < decls.len() ==> value_matches(s, decls[i], #[trigger] items[i], depth)
}

/// Whether `v` is a value of the type that `decl` names: a value of the primitive,
/// `null` for a name without a definition, and for a name with a definition
///
/// - of a sequence: an array whose length lies in the range and fits the prefix, or
///   is the fixed count, with an item of the element type at each place;
/// - of a tuple: an array with an item of the declared type at each place;
/// - of an enum: an object with one member, named after a variant whose position
///   fits the tag, with a value of the variant's payload type;
/// - of a struct with named fields: an object with exactly the declared members;
/// - of a struct with one unnamed field: a value of that field's type;
/// - of a struct with other unnamed fields: as of a tuple;
/// - of an empty struct: the empty array.
pub open spec fn value_matches(s: SchemaSpec, decl: Seq<char>, v: JsonSpec, depth: nat) -> bool
    decreases depth, 0nat,
{
    match primitive_of(decl) {
        Some(p) => primitive_matches(p, v),
        None => match s.definition(decl) {
            None => v == JsonSpec::Null,
            Some(def) => depth > 0 && {
                let d = (depth - 1) as nat;
                match def {
                    DefinitionSpec::Primitive(_) => false,
                    DefinitionSpec::Sequence { length_width, length_range, elements } => {
                        &&& v matches JsonSpec::Array(items)
                        &&& length_range.start <= items.len() <= length_range.end
                        &&& if length_width == 0 {
                            items.len() == length_range.end
                        } else {
                            is_prefix_width(length_width) && items.len() < pow256(
                                length_width as nat,
                            )
                        }
                        &&& forall|i: int|
                            0 <= i < items.len() ==> value_matches(s, elements, #[trigger] items[i], d)
                    },
                    DefinitionSpec::Tuple { elements } => {
                        &&& v matches JsonSpec::Array(items)
                        &&& tuple_matches(s, elements, items, d)
                    },
                    DefinitionSpec::Enum { tag_width, variants } => {
                        &&& v matches JsonSpec::Object(m)
                        &&& single_key(m) matches Some(k)
                        &&& first_index(variant_names(variants), k) matches Some(i)
                        &&& is_prefix_width(tag_width)
                        &&& i < pow256(tag_width as nat)
                        &&& value_matches(s, variants[i].2, m[k], d)
                    },
                    DefinitionSpec::Struct { fields } => match fields {
                        FieldsSpec::NamedFields(fs) => {
                            &&& v matches JsonSpec::Object(m)
                            &&& !has_duplicates(field_names(fs))
                            &&& forall|k: Seq<char>|
                                m.contains_key(k) <==> field_names(fs).contains(k)
                            &&& forall|i: int|
                                0 <= i < fs.len() ==> value_matches(
                                    s,
                                    (#[trigger] fs[i]).1,
                                    m[fs[i].0],
                                    d,
                                )
                        },
                        FieldsSpec::UnnamedFields(ds) => if ds.len() == 1 {
                            value_matches(s, ds[0], v, d)
                        } else {
                            &&& v matches JsonSpec::Array(items)
                            &&& tuple_matches(s, ds, items, d)
                        },
                        FieldsSpec::Empty => v == JsonSpec::Array(Seq::empty()),
                    },
                }
            },
        },
    }
}

/// The members of `m` that `fields` names.
pub open spec fn picked(fields: Seq<(Seq<char>, Seq<char>)>, m: Map<Seq<char>, JsonSpec>) -> Map<
    Seq<char>,
    JsonSpec,
> {
    Map::new(|k: Seq<char>| field_names(fields).contains(k), |k: Seq<char>| m[k])
}

/// Bytes put in front of others can be taken off again.
pub proof fn lemma_frame(b: Seq<u8>, rest: Seq<u8>)
    ensures
        (b + rest).len() == b.len() + rest.len(),
        (b + rest).take(b.len() as int) == b,
        (b + rest).skip(b.len() as int) == rest,
{
    assert((b + rest).take(b.len() as int) =~= b);
    assert((b + rest).skip(b.len() as int) =~= rest);
}

/// A number written in `w` bytes is read back from the front of what follows.
pub proof fn lemma_prefix_round_trip(n: nat, w: nat, rest: Seq<u8>)
    requires
        n < pow256(w),
    ensures
        (le_bytes(n, w) + rest).len() >= w,
        le_nat((le_bytes(n, w) + rest).take(w as int)) == n,
        (le_bytes(n, w) + rest).skip(w as int) == rest,
{
    lemma_le_bytes_len(n, w);
    lemma_frame(le_bytes(n, w), rest);
    lemma_le_nat_of_le_bytes(n, w);
}

/// A value of a primitive is read back from its bytes.
pub proof fn lemma_round_trip_primitive(p: Primitive, v: JsonSpec, rest: Seq<u8>)
    requires
        primitive_matches(p, v),
    ensures
        encode_primitive(p, v) is Ok,
        decode_primitive(p, encode_primitive(p, v)->Ok_0 + rest) == Ok::<
            (JsonSpec, Seq<u8>),
            CodecError,
        >((v, rest)),
{
    lemma_pow256_values();
    let w = p.spec_width();
    match p {
        Primitive::U8 | Primitive::U16 | Primitive::U32 | Primitive::U64 => {
            let n = v->Number_0->Int_0 as nat;
            lemma_prefix_round_trip(n, w, rest);
        },
        Primitive::I8 | Primitive::I16 | Primitive::I32 | Primitive::I64 => {
            let i = v->Number_0->Int_0;
            lemma_from_twos_of_twos(i, w);
            lemma_prefix_round_trip(twos(i, w), w, rest);
        },
        Primitive::U128 | Primitive::I128 => {},
        Primitive::Float32 => {
            let b = v->Number_0->Float_0;
            lemma_prefix_round_trip(narrow_spec(b) as nat, 4, rest);
        },
        Primitive::Float64 => {
            let b = v->Number_0->Float_0;
            lemma_prefix_round_trip(b as nat, 8, rest);
        },
        Primitive::String => {
            let s = v->String_0;
            let payload = encode_utf8(s);
            let head = le_bytes(payload.len(), 4);
            let all = head + payload + rest;
            lemma_le_bytes_len(payload.len(), 4);
            lemma_le_nat_of_le_bytes(payload.len(), 4);
            assert(all.take(4) =~= head);
            assert(string_frame_len(all) == 4 + payload.len());
            assert(string_payload(all) =~= payload);
            assert(all.skip(string_frame_len(all) as int) =~= rest);
            encode_utf8_valid_utf8(s);
            encode_utf8_decode_utf8(s);
        },
        Primitive::Bool => {
            let b = v->Bool_0;
            let byte = if b {
                1u8
            } else {
                0u8
            };
            let all = seq![byte] + rest;
            assert(all[0] == byte);
            assert(all.skip(1) =~= rest);
            assert(all.take(1) =~= seq![byte]);
        },
    }
}

/// What the round trip of one value states.
pub open spec fn reads_back(
    s: SchemaSpec,
    decl: Seq<char>,
    v: JsonSpec,
    depth: nat,
    rest: Seq<u8>,
) -> bool {
    &&& encode_value(s, decl, v, depth) is Ok
    &&& decode_value(s, decl, encode_value(s, decl, v, depth)->Ok_0 + rest, depth) == Ok::<
        (JsonSpec, Seq<u8>),
        CodecError,
    >((v, rest))
}

/// A value of a declaration is read back from its bytes, whatever follows them.
pub proof fn lemma_round_trip_value(
    s: SchemaSpec,
    decl: Seq<char>,
    v: JsonSpec,
    depth: nat,
    rest: Seq<u8>,
)
    requires
        value_matches(s, decl, v, depth),
    ensures
        reads_back(s, decl, v, depth, rest),
    decreases depth, 2nat, 0nat,
{
    match primitive_of(decl) {
        Some(p) => {
            lemma_round_trip_primitive(p, v, rest);
        },
        None => match s.definition(decl) {
            None => {
                assert(Seq::<u8>::empty() + rest =~= rest);
            },
            Some(def) => {
                match def {
                    DefinitionSpec::Primitive(_) => {},
                    DefinitionSpec::Sequence { .. } => {
                        lemma_round_trip_sequence(s, decl, v, depth, rest);
                    },
                    DefinitionSpec::Tuple { .. } => {
                        lemma_round_trip_tuple_value(s, decl, v, depth, rest);
                    },
                    DefinitionSpec::Enum { .. } => {
                        lemma_round_trip_enum(s, decl, v, depth, rest);
                    },
                    DefinitionSpec::Struct { .. } => {
                        lemma_round_trip_struct(s, decl, v, depth, rest);
                    },
                }
            },
        },
    }
}

/// [`lemma_round_trip_value`] for a declaration that names a sequence.
proof fn lemma_round_trip_sequence(
    s: SchemaSpec,
    decl: Seq<char>,
    v: JsonSpec,
    depth: nat,
    rest: Seq<u8>,
)
    requires
        value_matches(s, decl, v, depth),
        primitive_of(decl) is None,
        s.definition(decl) matches Some(def) && def is Sequence,
    ensures
        reads_back(s, decl, v, depth, rest),
    decreases depth, 1nat, 0nat,
{
    let d = (depth - 1) as nat;
    match s.definition(decl)->0 {
        DefinitionSpec::Sequence { length_width, length_range, elements } => {
            let items = v->Array_0;
            lemma_round_trip_items(s, elements, items, d, rest);
            let body = encode_items(s, elements, items, d)->Ok_0;
            if length_width != 0 {
                let head = le_bytes(items.len(), length_width as nat);
                lemma_prefix_round_trip(items.len(), length_width as nat, body + rest);
                assert(head + body + rest =~= head + (body + rest));
            }
        },
        _ => {},
    }
}

/// [`lemma_round_trip_value`] for a declaration that names a tuple.
proof fn lemma_round_trip_tuple_value(
    s: SchemaSpec,
    decl: Seq<char>,
    v: JsonSpec,
    depth: nat,
    rest: Seq<u8>,
)
    requires
        value_matches(s, decl, v, depth),
        primitive_of(decl) is None,
        s.definition(decl) matches Some(def) && def is Tuple,
    ensures
        reads_back(s, decl, v, depth, rest),
    decreases depth, 1nat, 0nat,
{
    let d = (depth - 1) as nat;
    match s.definition(decl)->0 {
        DefinitionSpec::Tuple { elements } => {
            let items = v->Array_0;
            assert(tuple_matches(s, elements, items, d));
            lemma_round_trip_tuple(s, elements, items, d, rest);
            assert(items.take(elements.len() as int) =~= items);
        },
        _ => {},
    }
}

/// [`lemma_round_trip_value`] for a declaration that names an enum.
proof fn lemma_round_trip_enum(
    s: SchemaSpec,
    decl: Seq<char>,
    v: JsonSpec,
    depth: nat,
    rest: Seq<u8>,
)
    requires
        value_matches(s, decl, v, depth),
        primitive_of(decl) is None,
        s.definition(decl) matches Some(def) && def is Enum,
    ensures
        reads_back(s, decl, v, depth, rest),
    decreases depth, 1nat, 0nat,
{
    let d = (depth - 1) as nat;
    match s.definition(decl)->0 {
        DefinitionSpec::Enum { tag_width, variants } => {
            let m = v->Object_0;
            let k = single_key(m)->0;
            let i = first_index(variant_names(variants), k)->0;
            lemma_first_index_is_first(variant_names(variants), k);
            lemma_round_trip_value(s, variants[i].2, m[k], d, rest);
            let body = encode_value(s, variants[i].2, m[k], d)->Ok_0;
            let head = le_bytes(i as nat, tag_width as nat);
            lemma_prefix_round_trip(i as nat, tag_width as nat, body + rest);
            assert(head + body + rest =~= head + (body + rest));
            assert(m.dom() =~= set![k]);
            assert(m =~= Map::empty().insert(variants[i].1, m[k]));
        },
        _ => {},
    }
}

/// [`lemma_round_trip_value`] for a declaration that names a struct.
proof fn lemma_round_trip_struct(
    s: SchemaSpec,
    decl: Seq<char>,
    v: JsonSpec,
    depth: nat,
    rest: Seq<u8>,
)
    requires
        value_matches(s, decl, v, depth),
        primitive_of(decl) is None,
        s.definition(decl) matches Some(def) && def is Struct,
    ensures
        reads_back(s, decl, v, depth, rest),
    decreases depth, 1nat, 0nat,
{
    let d = (depth - 1) as nat;
    match s.definition(decl)->0 {
        DefinitionSpec::Struct { fields } => match fields {
            FieldsSpec::NamedFields(fs) => {
                let m = v->Object_0;
                assert forall|i: int| 0 <= i < fs.len() implies m.contains_key(
                    (#[trigger] fs[i]).0,
                ) by {
                    assert(field_names(fs)[i] == fs[i].0);
                }
                lemma_round_trip_fields(s, fs, m, d, rest);
                assert(picked(fs, m) =~= m);
            },
            FieldsSpec::UnnamedFields(ds) => {
                if ds.len() == 1 {
                    lemma_round_trip_value(s, ds[0], v, d, rest);
                } else {
                    let items = v->Array_0;
                    assert(tuple_matches(s, ds, items, d));
                    lemma_round_trip_tuple(s, ds, items, d, rest);
                    assert(items.take(ds.len() as int) =~= items);
                }
            },
            FieldsSpec::Empty => {
                assert(Seq::<u8>::empty() + rest =~= rest);
            },
        },
        _ => {},
    }
}

/// The items of an array are read back from their bytes.
pub proof fn lemma_round_trip_items(
    s: SchemaSpec,
    decl: Seq<char>,
    items: Seq<JsonSpec>,
    depth: nat,
    rest: Seq<u8>,
)
    requires
        forall|i: int| 0 <= i < items.len() ==> value_matches(s, decl, #[trigger] items[i], depth),
    ensures
        encode_items(s, decl, items, depth) is Ok,
        decode_items(
            s,
            decl,
            items.len(),
            encode_items(s, decl, items, depth)->Ok_0 + rest,
            depth,
        ) == Ok::<(Seq<JsonSpec>, Seq<u8>), CodecError>((items, rest)),
    decreases depth, 3nat, items.len(),
{
    if items.len() == 0 {
        assert(Seq::<u8>::empty() + rest =~= rest);
        assert(items =~= Seq::empty());
    } else {
        let front = items.drop_last();
        let last = items.last();
        assert forall|i: int| 0 <= i < front.len() implies value_matches(
            s,
            decl,
            #[trigger] front[i],
            depth,
        ) by {
            assert(front[i] == items[i]);
        }
        lemma_round_trip_value(s, decl, last, depth, rest);
        let b = encode_value(s, decl, last, depth)->Ok_0;
        lemma_round_trip_items(s, decl, front, depth, b + rest);
        let a = encode_items(s, decl, front, depth)->Ok_0;
        assert(a + b + rest =~= a + (b + rest));
        assert(front.push(last) =~= items);
    }
}

/// The items of a tuple are read back from their bytes.
pub proof fn lemma_round_trip_tuple(
    s: SchemaSpec,
    decls: Seq<Seq<char>>,
    items: Seq<JsonSpec>,
    depth: nat,
    rest: Seq<u8>,
)
    requires
        decls.len() <= items.len(),
        forall|i: int| 0 <= i < decls.len() ==> value_matches(s, decls[i], #[trigger] items[i], depth),
    ensures
        encode_tuple(s, decls, items, depth) is Ok,
        decode_tuple(s, decls, encode_tuple(s, decls, items, depth)->Ok_0 + rest, depth) == Ok::<
            (Seq<JsonSpec>, Seq<u8>),
            CodecError,
        >((items.take(decls.len() as int), rest)),
    decreases depth, 3nat, decls.len(),
{
    if decls.len() == 0 {
        assert(Seq::<u8>::empty() + rest =~= rest);
        assert(items.take(0) =~= Seq::empty());
    } else {
        let front = decls.drop_last();
        let k = decls.len() - 1;
        assert forall|i: int| 0 <= i < front.len() implies value_matches(
            s,
            front[i],
            #[trigger] items[i],
            depth,
        ) by {
            assert(front[i] == decls[i]);
        }
        lemma_round_trip_value(s, decls.last(), items[k], depth, rest);
        let b = encode_value(s, decls.last(), items[k], depth)->Ok_0;
        lemma_round_trip_tuple(s, front, items, depth, b + rest);
        let a = encode_tuple(s, front, items, depth)->Ok_0;
        assert(a + b + rest =~= a + (b + rest));
        assert(items.take(k).push(items[k]) =~= items.take(decls.len() as int));
    }
}

/// The members of an object that a struct names are read back from their bytes.
pub proof fn lemma_round_trip_fields(
    s: SchemaSpec,
    fields: Seq<(Seq<char>, Seq<char>)>,
    m: Map<Seq<char>, JsonSpec>,
    depth: nat,
    rest: Seq<u8>,
)
    requires
        forall|i: int| 0 <= i < fields.len() ==> m.contains_key((#[trigger] fields[i]).0),
        forall|i: int|
            0 <= i < fields.len() ==> value_matches(
                s,
                (#[trigger] fields[i]).1,
                m[fields[i].0],
                depth,
            ),
    ensures
        encode_fields(s, fields, m, depth) is Ok,
        decode_fields(s, fields, encode_fields(s, fields, m, depth)->Ok_0 + rest, depth) == Ok::<
            (Map<Seq<char>, JsonSpec>, Seq<u8>),
            CodecError,
        >((picked(fields, m), rest)),
    decreases depth, 3nat, fields.len(),
{
    if fields.len() == 0 {
        assert(Seq::<u8>::empty() + rest =~= rest);
        assert(picked(fields, m) =~= Map::empty());
    } else {
        let front = fields.drop_last();
        let last = fields.last();
        assert forall|i: int| 0 <= i < front.len() implies m.contains_key((#[trigger] front[i]).0)
            && value_matches(s, front[i].1, m[front[i].0], depth) by {
            assert(front[i] == fields[i]);
        }
        lemma_round_trip_value(s, last.1, m[last.0], depth, rest);
        let b = encode_value(s, last.1, m[last.0], depth)->Ok_0;
        lemma_round_trip_fields(s, front, m, depth, b + rest);
        let a = encode_fields(s, front, m, depth)->Ok_0;
        assert(a + b + rest =~= a + (b + rest));
        assert(picked(front, m).insert(last.0, m[last.0]) =~= picked(fields, m)) by {
            assert forall|k: Seq<char>| field_names(fields).contains(k) <==> (k == last.0
                || field_names(front).contains(k)) by {
                if field_names(fields).contains(k) {
                    let i = choose|i: int|
                        0 <= i < field_names(fields).len() && field_names(fields)[i] == k;
                    if i < front.len() {
                        assert(field_names(front)[i] == k);
                    }
                }
                if field_names(front).contains(k) {
                    let i = choose|i: int|
                        0 <= i < field_names(front).len() && field_names(front)[i] == k;
                    assert(field_names(fields)[i] == k);
                }
                if k == last.0 {
                    assert(field_names(fields)[fields.len() - 1] == k);
                }
            }
        }
    }
}

/// Every finite binary32 number is a value of `f32`: the double that it widens to.
pub proof fn lemma_every_single_is_a_value(b: u32)
    requires
        single_is_finite_spec(b),
    ensures
        primitive_matches(Primitive::Float32, JsonSpec::Number(NumberSpec::Float(widen_spec(b)))),
{
    lemma_narrow_of_widen(b);
}

/// The 128-bit integers are read and never written: sixteen bytes decode to the
/// decimal notation of the number, and no value is encoded.
pub proof fn lemma_wide_integers_are_decode_only(bytes: Seq<u8>, v: JsonSpec)
    requires
        bytes.len() >= 16,
    ensures
        decode_primitive(Primitive::U128, bytes) == Ok::<(JsonSpec, Seq<u8>), CodecError>(
            (JsonSpec::String(decimal(le_nat(bytes.take(16)))), bytes.skip(16)),
        ),
        decode_primitive(Primitive::I128, bytes) == Ok::<(JsonSpec, Seq<u8>), CodecError>(
            (
                JsonSpec::String(signed_decimal(from_twos(le_nat(bytes.take(16)), 16))),
                bytes.skip(16),
            ),
        ),
        encode_primitive(Primitive::U128, v) == Err::<Seq<u8>, CodecError>(
            CodecError::Unsupported(Primitive::U128),
        ),
        encode_primitive(Primitive::I128, v) == Err::<Seq<u8>, CodecError>(
            CodecError::Unsupported(Primitive::I128),
        ),
{
}

/// Decoding the bytes of a value of the schema gives the value back, and leaves what
/// followed the bytes.
pub proof fn lemma_round_trip(s: SchemaSpec, v: JsonSpec, rest: Seq<u8>)
    requires
        value_matches(s, s.declaration, v, MAX_DEPTH as nat),
    ensures
        encode(s, v) is Ok,
        decode(s, encode(s, v)->Ok_0 + rest) == Ok::<(JsonSpec, Seq<u8>), CodecError>((v, rest)),
        decode(s, encode(s, v)->Ok_0) == Ok::<(JsonSpec, Seq<u8>), CodecError>(
            (v, Seq::<u8>::empty()),
        ),
{
    lemma_round_trip_value(s, s.declaration, v, MAX_DEPTH as nat, rest);
    lemma_round_trip_value(s, s.declaration, v, MAX_DEPTH as nat, Seq::empty());
    assert(encode(s, v)->Ok_0 + Seq::<u8>::empty() =~= encode(s, v)->Ok_0);
}

/// Under a schema whose top-level declaration is a primitive, every value of the
/// primitive is read back from its bytes.
pub proof fn lemma_round_trip_of_primitive(s: SchemaSpec, p: Primitive, v: JsonSpec)
    requires
        s.declaration == p.spec_name(),
        primitive_matches(p, v),
    ensures
        encode(s, v) is Ok,
        decode(s, encode(s, v)->Ok_0) == Ok::<(JsonSpec, Seq<u8>), CodecError>(
            (v, Seq::<u8>::empty()),
        ),
{
    p.lemma_name_round_trip();
    lemma_round_trip(s, v, Seq::empty());
}

} // verus!
