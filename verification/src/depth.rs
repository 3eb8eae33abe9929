//! The depth limit, and what does not depend on it.
//!
//! An encoding that needs fewer levels than it is given is the same with more levels,
//! and it depends on the definitions of the schema only, not on its top-level
//! declaration. From this follows that a struct with one unnamed field is written as
//! its field is.
use crate::codec::{
    encode, encode_fields, encode_items, encode_tuple, encode_value, enum_choice, field_names,
    has_duplicates, variant_names, MAX_DEPTH,
};
use crate::errors::CodecError;
use crate::json::JsonSpec;
use crate::schema::{first_index, primitive_of, DefinitionSpec, FieldsSpec, SchemaSpec};
use vstd::prelude::*;

verus! {

/// Whether an encoding ended for another reason than the depth limit.
pub open spec fn within_depth(r: Result<Seq<u8>, CodecError>) -> bool {
    r != Err::<Seq<u8>, CodecError>(CodecError::DepthExceeded)
}

/// An encoding that stays within `d1` levels is the same with `d2 >= d1` levels, under
/// any schema with the same definitions.
pub proof fn lemma_encode_value_stable(
    sa: SchemaSpec,
    sb: SchemaSpec,
    decl: Seq<char>,
    v: JsonSpec,
    d1: nat,
    d2: nat,
)
    requires
        sa.definitions == sb.definitions,
        d1 <= d2,
        within_depth(encode_value(sa, decl, v, d1)),
    ensures
        encode_value(sb, decl, v, d2) == encode_value(sa, decl, v, d1),
    decreases d1, 2nat, 0nat,
{
    match primitive_of(decl) {
        Some(p) => {},
        None => match sa.definition(decl) {
            None => {},
            Some(def) => {
                match def {
                    DefinitionSpec::Primitive(_) => {
                        lemma_encode_value_stable(
                            sa,
                            sb,
                            decl,
                            v,
                            (d1 - 1) as nat,
                            (d2 - 1) as nat,
                        );
                    },
                    DefinitionSpec::Sequence { .. } => {
                        lemma_sequence_stable(sa, sb, decl, v, d1, d2);
                    },
                    DefinitionSpec::Tuple { .. } => {
                        lemma_tuple_value_stable(sa, sb, decl, v, d1, d2);
                    },
                    DefinitionSpec::Enum { .. } => {
                        lemma_enum_stable(sa, sb, decl, v, d1, d2);
                    },
                    DefinitionSpec::Struct { .. } => {
                        lemma_struct_stable(sa, sb, decl, v, d1, d2);
                    },
                }
            },
        },
    }
}

/// [`lemma_encode_value_stable`] for a declaration that names a sequence.
proof fn lemma_sequence_stable(
    sa: SchemaSpec,
    sb: SchemaSpec,
    decl: Seq<char>,
    v: JsonSpec,
    d1: nat,
    d2: nat,
)
    requires
        sa.definitions == sb.definitions,
        d1 <= d2,
        within_depth(encode_value(sa, decl, v, d1)),
        primitive_of(decl) is None,
        sa.definition(decl) matches Some(def) && def is Sequence,
    ensures
        encode_value(sb, decl, v, d2) == encode_value(sa, decl, v, d1),
    decreases d1, 1nat, 0nat,
{
    match sa.definition(decl)->0 {
        DefinitionSpec::Sequence { length_width, length_range, elements } => {
            if let JsonSpec::Array(items) = v {
                if within_depth(encode_items(sa, elements, items, (d1 - 1) as nat)) {
                    lemma_encode_items_stable(
                        sa,
                        sb,
                        elements,
                        items,
                        (d1 - 1) as nat,
                        (d2 - 1) as nat,
                    );
                }
            }
        },
        _ => {},
    }
}

/// [`lemma_encode_value_stable`] for a declaration that names a tuple.
proof fn lemma_tuple_value_stable(
    sa: SchemaSpec,
    sb: SchemaSpec,
    decl: Seq<char>,
    v: JsonSpec,
    d1: nat,
    d2: nat,
)
    requires
        sa.definitions == sb.definitions,
        d1 <= d2,
        within_depth(encode_value(sa, decl, v, d1)),
        primitive_of(decl) is None,
        sa.definition(decl) matches Some(def) && def is Tuple,
    ensures
        encode_value(sb, decl, v, d2) == encode_value(sa, decl, v, d1),
    decreases d1, 1nat, 0nat,
{
    match sa.definition(decl)->0 {
        DefinitionSpec::Tuple { elements } => {
            if let JsonSpec::Array(items) = v {
                if items.len() == elements.len() {
                    lemma_encode_tuple_stable(
                        sa,
                        sb,
                        elements,
                        items,
                        (d1 - 1) as nat,
                        (d2 - 1) as nat,
                    );
                }
            }
        },
        _ => {},
    }
}

/// [`lemma_encode_value_stable`] for a declaration that names an enum.
proof fn lemma_enum_stable(
    sa: SchemaSpec,
    sb: SchemaSpec,
    decl: Seq<char>,
    v: JsonSpec,
    d1: nat,
    d2: nat,
)
    requires
        sa.definitions == sb.definitions,
        d1 <= d2,
        within_depth(encode_value(sa, decl, v, d1)),
        primitive_of(decl) is None,
        sa.definition(decl) matches Some(def) && def is Enum,
    ensures
        encode_value(sb, decl, v, d2) == encode_value(sa, decl, v, d1),
    decreases d1, 1nat, 0nat,
{
    match sa.definition(decl)->0 {
        DefinitionSpec::Enum { tag_width, variants } => {
            if let Some((name, payload)) = enum_choice(v) {
                if let Some(i) = first_index(variant_names(variants), name) {
                    if within_depth(encode_value(sa, variants[i].2, payload, (d1 - 1) as nat)) {
                        lemma_encode_value_stable(
                            sa,
                            sb,
                            variants[i].2,
                            payload,
                            (d1 - 1) as nat,
                            (d2 - 1) as nat,
                        );
                    }
                }
            }
        },
        _ => {},
    }
}

/// [`lemma_encode_value_stable`] for a declaration that names a struct.
proof fn lemma_struct_stable(
    sa: SchemaSpec,
    sb: SchemaSpec,
    decl: Seq<char>,
    v: JsonSpec,
    d1: nat,
    d2: nat,
)
    requires
        sa.definitions == sb.definitions,
        d1 <= d2,
        within_depth(encode_value(sa, decl, v, d1)),
        primitive_of(decl) is None,
        sa.definition(decl) matches Some(def) && def is Struct,
    ensures
        encode_value(sb, decl, v, d2) == encode_value(sa, decl, v, d1),
    decreases d1, 1nat, 0nat,
{
    match sa.definition(decl)->0 {
        DefinitionSpec::Struct { fields } => match fields {
            FieldsSpec::NamedFields(fs) => {
                if let JsonSpec::Object(m) = v {
                    if !has_duplicates(field_names(fs)) {
                        lemma_encode_fields_stable(
                            sa,
                            sb,
                            fs,
                            m,
                            (d1 - 1) as nat,
                            (d2 - 1) as nat,
                        );
                    }
                }
            },
            FieldsSpec::UnnamedFields(ds) => {
                if ds.len() == 1 {
                    lemma_encode_value_stable(sa, sb, ds[0], v, (d1 - 1) as nat, (d2 - 1) as nat);
                } else if let JsonSpec::Array(items) = v {
                    if items.len() == ds.len() {
                        lemma_encode_tuple_stable(
                            sa,
                            sb,
                            ds,
                            items,
                            (d1 - 1) as nat,
                            (d2 - 1) as nat,
                        );
                    }
                }
            },
            FieldsSpec::Empty => {},
        },
        _ => {},
    }
}

/// As [`lemma_encode_value_stable`], for the items of an array.
pub proof fn lemma_encode_items_stable(
    sa: SchemaSpec,
    sb: SchemaSpec,
    decl: Seq<char>,
    items: Seq<JsonSpec>,
    d1: nat,
    d2: nat,
)
    requires
        sa.definitions == sb.definitions,
        d1 <= d2,
        within_depth(encode_items(sa, decl, items, d1)),
    ensures
        encode_items(sb, decl, items, d2) == encode_items(sa, decl, items, d1),
    decreases d1, 3nat, items.len(),
{
    if items.len() > 0 {
        lemma_encode_items_stable(sa, sb, decl, items.drop_last(), d1, d2);
        if encode_items(sa, decl, items.drop_last(), d1) is Ok {
            lemma_encode_value_stable(sa, sb, decl, items.last(), d1, d2);
        }
    }
}

/// As [`lemma_encode_value_stable`], for the items of a tuple.
pub proof fn lemma_encode_tuple_stable(
    sa: SchemaSpec,
    sb: SchemaSpec,
    decls: Seq<Seq<char>>,
    items: Seq<JsonSpec>,
    d1: nat,
    d2: nat,
)
    requires
        sa.definitions == sb.definitions,
        d1 <= d2,
        within_depth(encode_tuple(sa, decls, items, d1)),
    ensures
        encode_tuple(sb, decls, items, d2) == encode_tuple(sa, decls, items, d1),
    decreases d1, 3nat, decls.len(),
{
    if decls.len() > 0 {
        lemma_encode_tuple_stable(sa, sb, decls.drop_last(), items, d1, d2);
        if encode_tuple(sa, decls.drop_last(), items, d1) is Ok {
            lemma_encode_value_stable(sa, sb, decls.last(), items[decls.len() - 1], d1, d2);
        }
    }
}

/// As [`lemma_encode_value_stable`], for the members of an object.
pub proof fn lemma_encode_fields_stable(
    sa: SchemaSpec,
    sb: SchemaSpec,
    fields: Seq<(Seq<char>, Seq<char>)>,
    m: Map<Seq<char>, JsonSpec>,
    d1: nat,
    d2: nat,
)
    requires
        sa.definitions == sb.definitions,
        d1 <= d2,
        within_depth(encode_fields(sa, fields, m, d1)),
    ensures
        encode_fields(sb, fields, m, d2) == encode_fields(sa, fields, m, d1),
    decreases d1, 3nat, fields.len(),
{
    if fields.len() > 0 {
        lemma_encode_fields_stable(sa, sb, fields.drop_last(), m, d1, d2);
        if encode_fields(sa, fields.drop_last(), m, d1) is Ok && m.contains_key(fields.last().0) {
            lemma_encode_value_stable(sa, sb, fields.last().1, m[fields.last().0], d1, d2);
        }
    }
}

/// The same definitions with another top-level declaration.
pub open spec fn schema_of(s: SchemaSpec, declaration: Seq<char>) -> SchemaSpec {
    SchemaSpec { declaration, definitions: s.definitions }
}

/// A struct with one unnamed field is transparent: a value is written under it as it
/// is written under the field's declaration. This holds of every value whose
/// encoding does not use up the depth limit.
pub proof fn lemma_single_field_struct_is_transparent(
    s: SchemaSpec,
    inner: Seq<char>,
    v: JsonSpec,
)
    requires
        primitive_of(s.declaration) is None,
        s.definition(s.declaration) matches Some(
            DefinitionSpec::Struct { fields: FieldsSpec::UnnamedFields(ds) },
        ) && ds == seq![inner],
        within_depth(encode(s, v)),
    ensures
        encode(s, v) == encode(schema_of(s, inner), v),
{
    let ds = (s.definition(s.declaration)->0)->Struct_fields->UnnamedFields_0;
    assert(ds[0] == inner);
    lemma_encode_value_stable(
        s,
        schema_of(s, inner),
        inner,
        v,
        (MAX_DEPTH - 1) as nat,
        MAX_DEPTH as nat,
    );
}

} // verus!
