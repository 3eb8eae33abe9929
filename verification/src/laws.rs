//! What holds of the encoder for every schema and every value.
use crate::codec::{
    array_of_length, encode, encode_value, enum_choice, then_bytes, variant_names,
    written_of_value, MAX_DEPTH,
};
use crate::errors::{CodecError, ErrorKind};
use crate::json::{
    entry_keys, lemma_object_view, lemma_single_key, object_view, JsonSpec, JsonValue,
};
use crate::schema::{
    first_index, is_first_at, lemma_first_index_found, lemma_first_index_is_first, primitive_of,
    DefinitionSpec, SchemaSpec,
};
use crate::serialize_adapter::written;
use crate::wire::{
    is_prefix_width, le_bytes, lemma_le_bytes_len, lemma_le_nat_of_le_bytes, pow256,
};
use vstd::prelude::*;

verus! {

/// Length discipline: under a sequence without a length prefix, an array whose length
/// is not the fixed count is refused as a shape mismatch.
pub proof fn lemma_fixed_length_is_enforced(
    s: SchemaSpec,
    decl: Seq<char>,
    items: Seq<JsonSpec>,
    depth: nat,
)
    requires
        depth > 0,
        primitive_of(decl) is None,
        s.definition(decl) matches Some(DefinitionSpec::Sequence { length_width, length_range, .. })
            && length_width == 0 && items.len() != length_range.end,
    ensures
        encode_value(s, decl, JsonSpec::Array(items), depth) matches Err(e) && e
            == CodecError::Expectation(
            array_of_length((s.definition(decl)->0)->Sequence_length_range.end as nat),
        ) && e.spec_kind() == ErrorKind::ShapeMismatch,
{
}

/// Length discipline, for the value that a schema describes.
pub proof fn lemma_fixed_length_is_enforced_at_top(s: SchemaSpec, items: Seq<JsonSpec>)
    requires
        primitive_of(s.declaration) is None,
        s.definition(s.declaration) matches Some(
            DefinitionSpec::Sequence { length_width, length_range, .. },
        ) && length_width == 0 && items.len() != length_range.end,
    ensures
        encode(s, JsonSpec::Array(items)) matches Err(e) && e.spec_kind()
            == ErrorKind::ShapeMismatch,
{
    lemma_fixed_length_is_enforced(s, s.declaration, items, MAX_DEPTH as nat);
}

/// The object with the one member `name`, of value `payload`.
pub open spec fn variant_value(name: Seq<char>, payload: JsonSpec) -> JsonSpec {
    JsonSpec::Object(Map::empty().insert(name, payload))
}

/// The bytes of an enum value are the position of the named variant, in the width of
/// the tag, and then the bytes of the payload. The name serves to find the position
/// and is not written.
pub proof fn lemma_enum_bytes(
    s: SchemaSpec,
    decl: Seq<char>,
    name: Seq<char>,
    payload: JsonSpec,
    position: int,
    depth: nat,
)
    requires
        depth > 0,
        primitive_of(decl) is None,
        s.definition(decl) matches Some(DefinitionSpec::Enum { tag_width, variants })
            && is_prefix_width(tag_width) && is_first_at(variant_names(variants), name, position)
            && position < pow256(tag_width as nat),
    ensures
        encode_value(s, decl, variant_value(name, payload), depth) == then_bytes(
            Ok(
                le_bytes(
                    position as nat,
                    (s.definition(decl)->0)->Enum_tag_width as nat,
                ),
            ),
            encode_value(
                s,
                (s.definition(decl)->0)->Enum_variants[position].2,
                payload,
                (depth - 1) as nat,
            ),
        ),
{
    let m = Map::<Seq<char>, JsonSpec>::empty().insert(name, payload);
    assert(m.dom() =~= set![name]);
    lemma_single_key(m, name);
    assert(enum_choice(variant_value(name, payload)) == Some((name, payload)));
    let variants = (s.definition(decl)->0)->Enum_variants;
    lemma_first_index_found(variant_names(variants), name, position);
}

/// Enum stability: two enums whose variants differ in their names only give the same
/// bytes to the variant at a position. The enums may stand in different schemas, as
/// long as the payload encodes alike in both.
pub proof fn lemma_enum_names_are_not_written(
    sa: SchemaSpec,
    decl1: Seq<char>,
    name1: Seq<char>,
    sb: SchemaSpec,
    decl2: Seq<char>,
    name2: Seq<char>,
    payload: JsonSpec,
    position: int,
    depth: nat,
)
    requires
        depth > 0,
        primitive_of(decl1) is None,
        primitive_of(decl2) is None,
        sa.definition(decl1) matches Some(DefinitionSpec::Enum { tag_width, variants })
            && is_prefix_width(tag_width) && is_first_at(variant_names(variants), name1, position)
            && position < pow256(tag_width as nat),
        sb.definition(decl2) matches Some(DefinitionSpec::Enum { tag_width, variants })
            && is_prefix_width(tag_width) && is_first_at(variant_names(variants), name2, position)
            && position < pow256(tag_width as nat),
        (sa.definition(decl1)->0)->Enum_tag_width == (sb.definition(decl2)->0)->Enum_tag_width,
        encode_value(
            sa,
            (sa.definition(decl1)->0)->Enum_variants[position].2,
            payload,
            (depth - 1) as nat,
        ) == encode_value(
            sb,
            (sb.definition(decl2)->0)->Enum_variants[position].2,
            payload,
            (depth - 1) as nat,
        ),
    ensures
        encode_value(sa, decl1, variant_value(name1, payload), depth) == encode_value(
            sb,
            decl2,
            variant_value(name2, payload),
            depth,
        ),
{
    lemma_enum_bytes(sa, decl1, name1, payload, position, depth);
    lemma_enum_bytes(sb, decl2, name2, payload, position, depth);
}

/// Enum stability, the other way round: variants at different positions get
/// different bytes, whatever their names and payloads.
pub proof fn lemma_enum_positions_are_written(
    sa: SchemaSpec,
    decl1: Seq<char>,
    name1: Seq<char>,
    payload1: JsonSpec,
    position1: int,
    sb: SchemaSpec,
    decl2: Seq<char>,
    name2: Seq<char>,
    payload2: JsonSpec,
    position2: int,
    depth: nat,
)
    requires
        depth > 0,
        primitive_of(decl1) is None,
        primitive_of(decl2) is None,
        sa.definition(decl1) matches Some(DefinitionSpec::Enum { tag_width, variants })
            && is_prefix_width(tag_width) && is_first_at(variant_names(variants), name1, position1)
            && position1 < pow256(tag_width as nat),
        sb.definition(decl2) matches Some(DefinitionSpec::Enum { tag_width, variants })
            && is_prefix_width(tag_width) && is_first_at(variant_names(variants), name2, position2)
            && position2 < pow256(tag_width as nat),
        (sa.definition(decl1)->0)->Enum_tag_width == (sb.definition(decl2)->0)->Enum_tag_width,
        position1 != position2,
        encode_value(sa, decl1, variant_value(name1, payload1), depth) is Ok,
        encode_value(sb, decl2, variant_value(name2, payload2), depth) is Ok,
    ensures
        encode_value(sa, decl1, variant_value(name1, payload1), depth) != encode_value(
            sb,
            decl2,
            variant_value(name2, payload2),
            depth,
        ),
{
    lemma_enum_bytes(sa, decl1, name1, payload1, position1, depth);
    lemma_enum_bytes(sb, decl2, name2, payload2, position2, depth);
    let w = (sa.definition(decl1)->0)->Enum_tag_width as nat;
    let h1 = le_bytes(position1 as nat, w);
    let h2 = le_bytes(position2 as nat, w);
    lemma_le_bytes_len(position1 as nat, w);
    lemma_le_bytes_len(position2 as nat, w);
    lemma_le_nat_of_le_bytes(position1 as nat, w);
    lemma_le_nat_of_le_bytes(position2 as nat, w);
    let r1 = encode_value(sa, decl1, variant_value(name1, payload1), depth)->Ok_0;
    let r2 = encode_value(sb, decl2, variant_value(name2, payload2), depth)->Ok_0;
    assert(r1.take(w as int) =~= h1);
    assert(r2.take(w as int) =~= h2);
}

/// Whether each member of `a` is a member of `b`.
pub open spec fn members_within(a: Seq<(String, JsonValue)>, b: Seq<(String, JsonValue)>) -> bool {
    forall|i: int| 0 <= i < a.len() ==> exists|j: int| 0 <= j < b.len() && #[trigger] a[i] == b[j]
}

/// Whether no two members have the same name.
pub open spec fn distinct_names(a: Seq<(String, JsonValue)>) -> bool {
    forall|i: int, j: int| 0 <= i < j < a.len() ==> #[trigger] a[i].0@ != #[trigger] a[j].0@
}

/// Objects with the same members stand for the same map, in whatever order the
/// members are listed.
pub proof fn lemma_member_order_is_immaterial(
    a: Seq<(String, JsonValue)>,
    b: Seq<(String, JsonValue)>,
)
    requires
        distinct_names(a),
        distinct_names(b),
        members_within(a, b),
        members_within(b, a),
    ensures
        object_view(a) == object_view(b),
{
    assert forall|k: Seq<char>| #[trigger]
        object_view(a).contains_key(k) == object_view(b).contains_key(k) && (object_view(
            a,
        ).contains_key(k) ==> object_view(a)[k] == object_view(b)[k]) by {
        lemma_object_view(a, k);
        lemma_object_view(b, k);
        lemma_first_index_is_first(entry_keys(a), k);
        lemma_first_index_is_first(entry_keys(b), k);
        lemma_same_member(a, b, k);
        lemma_same_member(b, a, k);
    }
    assert(object_view(a) =~= object_view(b));
}

/// A name that `a` holds is held by `b` too, with the same value.
proof fn lemma_same_member(
    a: Seq<(String, JsonValue)>,
    b: Seq<(String, JsonValue)>,
    k: Seq<char>,
)
    requires
        distinct_names(b),
        members_within(a, b),
    ensures
        first_index(entry_keys(a), k) matches Some(i) ==> (first_index(
            entry_keys(b),
            k,
        ) matches Some(j) && a[i] == b[j]),
{
    lemma_first_index_is_first(entry_keys(a), k);
    if let Some(i) = first_index(entry_keys(a), k) {
        let j = choose|j: int| 0 <= j < b.len() && a[i] == b[j];
        assert(entry_keys(b)[j] == k);
        assert forall|x: int| 0 <= x < j implies entry_keys(b)[x] != k by {
            assert(b[x].0@ != b[j].0@);
        }
        assert(is_first_at(entry_keys(b), k, j));
        lemma_first_index_found(entry_keys(b), k, j);
    }
}

/// Field order: the bytes of an object depend on the schema's order of the fields
/// and not on the order in which the object lists its members.
pub proof fn lemma_field_order(s: SchemaSpec, a: JsonValue, b: JsonValue)
    requires
        a matches JsonValue::Object(x) && b matches JsonValue::Object(y) && distinct_names(x@)
            && distinct_names(y@) && members_within(x@, y@) && members_within(y@, x@),
    ensures
        a@ == b@,
        encode(s, a@) == encode(s, b@),
{
    match (a, b) {
        (JsonValue::Object(x), JsonValue::Object(y)) => {
            lemma_member_order_is_immaterial(x@, y@);
        },
        _ => {},
    }
}

/// What has been written of a value that can be encoded is its encoding.
pub proof fn lemma_written_of_an_encoding(s: SchemaSpec, decl: Seq<char>, v: JsonSpec, depth: nat)
    requires
        encode_value(s, decl, v, depth) is Ok,
    ensures
        written_of_value(s, decl, v, depth) == encode_value(s, decl, v, depth)->Ok_0,
{
}

/// A value that a primitive refuses leaves nothing written.
pub proof fn lemma_refused_leaf_writes_nothing(
    s: SchemaSpec,
    decl: Seq<char>,
    v: JsonSpec,
    depth: nat,
)
    requires
        primitive_of(decl) is Some,
        encode_value(s, decl, v, depth) is Err,
    ensures
        written_of_value(s, decl, v, depth) == Seq::<u8>::empty(),
{
}

/// Determinism: two runs of an encoder on the same schema, value and output end
/// alike and leave the same bytes, whether they succeed or fail.
pub proof fn lemma_encoding_is_deterministic(
    before: Seq<u8>,
    expected: Result<Seq<u8>, CodecError>,
    stopped: Seq<u8>,
    after1: Seq<u8>,
    r1: Result<(), CodecError>,
    after2: Seq<u8>,
    r2: Result<(), CodecError>,
)
    requires
        written(before, after1, r1, expected, stopped),
        written(before, after2, r2, expected, stopped),
    ensures
        r1 == r2,
        after1 == after2,
{
    if r1 is Ok {
        let u1: () = r1->Ok_0;
        let u2: () = r2->Ok_0;
        assert(u1 == u2);
        assert(r1 == Ok::<(), CodecError>(u1));
        assert(r2 == Ok::<(), CodecError>(u2));
    }
}

} // verus!
