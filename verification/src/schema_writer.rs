//! The persisted form of a schema container: its bytes.
//!
//! The container is written as its top-level declaration, a string, and then its
//! definitions: their number as a `u32` and, for each in ascending order of the
//! names, the name and the definition. A definition starts with the byte of its kind.
//! Every list is preceded by its length as a `u32`. Each integer and each string of
//! it is written by `borsh`.
use crate::codec::then_bytes;
use crate::errors::CodecError;
use crate::schema::{
    definitions_view, names_view, pairs_view, variants_view, Definition, DefinitionSpec, Fields,
    FieldsSpec, Schema, SchemaSpec,
};
use crate::wire::{le_bytes, twos, write_i64, write_string, write_u32, write_u64, write_u8};
use vstd::prelude::*;
use vstd::string::*;
use vstd::utf8::*;

verus! {

/// The bytes of a name: the number of its UTF-8 bytes as a `u32`, then the bytes.
pub open spec fn name_bytes(name: Seq<char>) -> Result<Seq<u8>, CodecError> {
    if encode_utf8(name).len() <= u32::MAX {
        Ok(le_bytes(encode_utf8(name).len(), 4) + encode_utf8(name))
    } else {
        Err(CodecError::LengthMismatch)
    }
}

/// The bytes of a list of `n` entries, whose own bytes are `body`: the number `n` as
/// a `u32`, then the entries.
pub open spec fn counted(n: nat, body: Result<Seq<u8>, CodecError>) -> Result<
    Seq<u8>,
    CodecError,
> {
    if n <= u32::MAX {
        then_bytes(Ok(le_bytes(n, 4)), body)
    } else {
        Err(CodecError::LengthMismatch)
    }
}

/// The bytes of names, one after the other.
pub open spec fn names_bytes(names: Seq<Seq<char>>) -> Result<Seq<u8>, CodecError>
    decreases names.len(),
{
    if names.len() == 0 {
        Ok(Seq::empty())
    } else {
        then_bytes(names_bytes(names.drop_last()), name_bytes(names.last()))
    }
}

/// The bytes of pairs of names, one after the other.
pub open spec fn pairs_bytes(pairs: Seq<(Seq<char>, Seq<char>)>) -> Result<Seq<u8>, CodecError>
    decreases pairs.len(),
{
    if pairs.len() == 0 {
        Ok(Seq::empty())
    } else {
        then_bytes(
            pairs_bytes(pairs.drop_last()),
            then_bytes(name_bytes(pairs.last().0), name_bytes(pairs.last().1)),
        )
    }
}

/// The bytes of one variant: its discriminant as an `i64`, its name, the declaration
/// of its payload.
pub open spec fn variant_bytes(variant: (i64, Seq<char>, Seq<char>)) -> Result<
    Seq<u8>,
    CodecError,
> {
    then_bytes(
        Ok(le_bytes(twos(variant.0 as int, 8), 8)),
        then_bytes(name_bytes(variant.1), name_bytes(variant.2)),
    )
}

/// The bytes of variants, one after the other.
pub open spec fn variants_bytes(variants: Seq<(i64, Seq<char>, Seq<char>)>) -> Result<
    Seq<u8>,
    CodecError,
>
    decreases variants.len(),
{
    if variants.len() == 0 {
        Ok(Seq::empty())
    } else {
        then_bytes(variants_bytes(variants.drop_last()), variant_bytes(variants.last()))
    }
}

/// The bytes of the fields of a struct: the byte of their kind, then the list.
pub open spec fn fields_bytes(fields: FieldsSpec) -> Result<Seq<u8>, CodecError> {
    match fields {
        FieldsSpec::NamedFields(pairs) => then_bytes(
            Ok(seq![0u8]),
            counted(pairs.len(), pairs_bytes(pairs)),
        ),
        FieldsSpec::UnnamedFields(names) => then_bytes(
            Ok(seq![1u8]),
            counted(names.len(), names_bytes(names)),
        ),
        FieldsSpec::Empty => Ok(seq![2u8]),
    }
}

/// The bytes of a definition: the byte of its kind, then its parts in the order of
/// their declaration.
pub open spec fn definition_bytes(def: DefinitionSpec) -> Result<Seq<u8>, CodecError> {
    match def {
        DefinitionSpec::Primitive(size) => Ok(seq![0u8, size]),
        DefinitionSpec::Sequence { length_width, length_range, elements } => then_bytes(
            Ok(
                seq![1u8, length_width] + le_bytes(length_range.start as nat, 8) + le_bytes(
                    length_range.end as nat,
                    8,
                ),
            ),
            name_bytes(elements),
        ),
        DefinitionSpec::Tuple { elements } => then_bytes(
            Ok(seq![2u8]),
            counted(elements.len(), names_bytes(elements)),
        ),
        DefinitionSpec::Enum { tag_width, variants } => then_bytes(
            Ok(seq![3u8, tag_width]),
            counted(variants.len(), variants_bytes(variants)),
        ),
        DefinitionSpec::Struct { fields } => then_bytes(Ok(seq![4u8]), fields_bytes(fields)),
    }
}

/// The bytes of definitions with their names, one after the other.
pub open spec fn definitions_bytes(defs: Seq<(Seq<char>, DefinitionSpec)>) -> Result<
    Seq<u8>,
    CodecError,
>
    decreases defs.len(),
{
    if defs.len() == 0 {
        Ok(Seq::empty())
    } else {
        then_bytes(
            definitions_bytes(defs.drop_last()),
            then_bytes(name_bytes(defs.last().0), definition_bytes(defs.last().1)),
        )
    }
}

/// The bytes of a schema container.
pub open spec fn schema_bytes(s: SchemaSpec) -> Result<Seq<u8>, CodecError> {
    then_bytes(
        name_bytes(s.declaration),
        counted(s.definitions.len(), definitions_bytes(s.definitions)),
    )
}

/// What a writer of a part of a schema leaves behind: where the rules give bytes, it
/// succeeds and has appended exactly those; where they give an error, it returns
/// that error and the output is as it was.
pub open spec fn appended(
    before: Seq<u8>,
    after: Seq<u8>,
    r: Result<(), CodecError>,
    expected: Result<Seq<u8>, CodecError>,
) -> bool {
    match expected {
        Ok(bytes) => r is Ok && after == before + bytes,
        Err(e) => r == Err::<(), CodecError>(e) && after == before,
    }
}

/// Ends a writer that has written the first of two parts: where the second part
/// failed, what was written of the first is taken back.
fn finish(out: &mut Vec<u8>, start: usize, r: Result<(), CodecError>) -> (done: Result<
    (),
    CodecError,
>)
    requires
        start <= old(out)@.len(),
    ensures
        done == r,
        r is Ok ==> final(out)@ == old(out)@,
        r is Err ==> final(out)@ == old(out)@.take(start as int),
{
    match r {
        Ok(_) => {},
        Err(_) => {
            out.truncate(start);
        },
    }
    r
}

/// Where the first of two parts was written and the second came after it or was
/// taken back with it, the whole was written or nothing was.
proof fn lemma_appended_both(
    before: Seq<u8>,
    middle: Seq<u8>,
    after: Seq<u8>,
    last: Seq<u8>,
    r: Result<(), CodecError>,
    first: Result<Seq<u8>, CodecError>,
    second: Result<Seq<u8>, CodecError>,
)
    requires
        first is Ok,
        middle == before + first->Ok_0,
        appended(middle, after, r, second),
        r is Ok ==> last == after,
        r is Err ==> last == after.take(before.len() as int),
    ensures
        appended(before, last, r, then_bytes(first, second)),
{
    match second {
        Ok(b) => {
            assert(before + first->Ok_0 + b =~= before + (first->Ok_0 + b));
        },
        Err(_) => {
            assert(middle.take(before.len() as int) =~= before);
        },
    }
}

/// Writes a name.
fn write_name(out: &mut Vec<u8>, name: &str) -> (r: Result<(), CodecError>)
    ensures
        appended(old(out)@, final(out)@, r, name_bytes(name@)),
{
    match write_string(out, name) {
        Ok(()) => {
            assert(out@ =~= old(out)@ + (le_bytes(encode_utf8(name@).len(), 4) + encode_utf8(
                name@,
            )));
            Ok(())
        },
        Err(_) => Err(CodecError::LengthMismatch),
    }
}

/// Writes the length of a list, if it fits a `u32`.
fn write_count(out: &mut Vec<u8>, n: usize) -> (r: Result<(), CodecError>)
    ensures
        n <= u32::MAX ==> r is Ok && final(out)@ == old(out)@ + le_bytes(n as nat, 4),
        n > u32::MAX ==> r == Err::<(), CodecError>(CodecError::LengthMismatch) && final(out)@
            == old(out)@,
{
    if n > 0xffff_ffff {
        return Err(CodecError::LengthMismatch);
    }
    write_u32(out, n as u32);
    Ok(())
}

/// An error in a front part of a list of names is the error of the whole list.
proof fn lemma_names_error(names: Seq<Seq<char>>, k: int)
    requires
        0 <= k <= names.len(),
        names_bytes(names.take(k)) is Err,
    ensures
        names_bytes(names) == names_bytes(names.take(k)),
    decreases names.len() - k,
{
    if k < names.len() {
        assert(names.take(k + 1).drop_last() =~= names.take(k));
        lemma_names_error(names, k + 1);
    } else {
        assert(names.take(k) =~= names);
    }
}

/// An error in a front part of a list of pairs is the error of the whole list.
proof fn lemma_pairs_error(pairs: Seq<(Seq<char>, Seq<char>)>, k: int)
    requires
        0 <= k <= pairs.len(),
        pairs_bytes(pairs.take(k)) is Err,
    ensures
        pairs_bytes(pairs) == pairs_bytes(pairs.take(k)),
    decreases pairs.len() - k,
{
    if k < pairs.len() {
        assert(pairs.take(k + 1).drop_last() =~= pairs.take(k));
        lemma_pairs_error(pairs, k + 1);
    } else {
        assert(pairs.take(k) =~= pairs);
    }
}

/// An error in a front part of a list of variants is the error of the whole list.
proof fn lemma_variants_error(variants: Seq<(i64, Seq<char>, Seq<char>)>, k: int)
    requires
        0 <= k <= variants.len(),
        variants_bytes(variants.take(k)) is Err,
    ensures
        variants_bytes(variants) == variants_bytes(variants.take(k)),
    decreases variants.len() - k,
{
    if k < variants.len() {
        assert(variants.take(k + 1).drop_last() =~= variants.take(k));
        lemma_variants_error(variants, k + 1);
    } else {
        assert(variants.take(k) =~= variants);
    }
}

/// An error in a front part of the definitions is the error of all of them.
proof fn lemma_definitions_error(defs: Seq<(Seq<char>, DefinitionSpec)>, k: int)
    requires
        0 <= k <= defs.len(),
        definitions_bytes(defs.take(k)) is Err,
    ensures
        definitions_bytes(defs) == definitions_bytes(defs.take(k)),
    decreases defs.len() - k,
{
    if k < defs.len() {
        assert(defs.take(k + 1).drop_last() =~= defs.take(k));
        lemma_definitions_error(defs, k + 1);
    } else {
        assert(defs.take(k) =~= defs);
    }
}

/// Writes a list of names, with its length.
fn write_names(out: &mut Vec<u8>, names: &Vec<String>) -> (r: Result<(), CodecError>)
    ensures
        appended(
            old(out)@,
            final(out)@,
            r,
            counted(names@.len(), names_bytes(names_view(names@))),
        ),
{
    let ghost all = names_view(names@);
    let start = out.len();
    match write_count(out, names.len()) {
        Ok(()) => {},
        Err(e) => {
            return Err(e);
        },
    }
    let ghost middle = out@;
    let ghost mut acc: Seq<u8> = Seq::empty();
    assert(all.take(0) =~= Seq::empty());
    assert(out@ =~= middle + acc);
    let mut i: usize = 0;
    while i < names.len()
        invariant
            i <= names@.len(),
            all == names_view(names@),
            names_bytes(all.take(i as int)) == Ok::<Seq<u8>, CodecError>(acc),
            out@ == middle + acc,
            middle == old(out)@ + le_bytes(names@.len() as nat, 4),
            names@.len() <= u32::MAX,
            start == old(out)@.len(),
        decreases names@.len() - i,
    {
        proof {
            assert(all.take(i + 1).drop_last() =~= all.take(i as int));
            assert(all.take(i + 1).last() == names@[i as int]@);
        }
        match write_name(out, names[i].as_str()) {
            Ok(()) => {
                proof {
                    let b = name_bytes(names@[i as int]@)->Ok_0;
                    assert(out@ =~= middle + (acc + b));
                    acc = acc + b;
                }
            },
            Err(e) => {
                proof {
                    lemma_names_error(all, i + 1);
                }
                out.truncate(start);
                assert(out@ =~= old(out)@);
                return Err(e);
            },
        }
        i += 1;
    }
    proof {
        assert(all.take(i as int) =~= all);
        assert(out@ =~= old(out)@ + (le_bytes(names@.len() as nat, 4) + acc));
    }
    Ok(())
}

/// Writes two names, one after the other.
fn write_pair(out: &mut Vec<u8>, first: &str, second: &str) -> (r: Result<(), CodecError>)
    ensures
        appended(
            old(out)@,
            final(out)@,
            r,
            then_bytes(name_bytes(first@), name_bytes(second@)),
        ),
{
    let start = out.len();
    match write_name(out, first) {
        Ok(()) => {},
        Err(e) => {
            return Err(e);
        },
    }
    let ghost middle = out@;
    let r = write_name(out, second);
    let ghost after = out@;
    let done = finish(out, start, r);
    proof {
        lemma_appended_both(
            old(out)@,
            middle,
            after,
            out@,
            r,
            name_bytes(first@),
            name_bytes(second@),
        );
    }
    done
}

/// Writes a list of pairs of names, with its length.
fn write_pairs(out: &mut Vec<u8>, pairs: &Vec<(String, String)>) -> (r: Result<(), CodecError>)
    ensures
        appended(
            old(out)@,
            final(out)@,
            r,
            counted(pairs@.len(), pairs_bytes(pairs_view(pairs@))),
        ),
{
    let ghost all = pairs_view(pairs@);
    let start = out.len();
    match write_count(out, pairs.len()) {
        Ok(()) => {},
        Err(e) => {
            return Err(e);
        },
    }
    let ghost middle = out@;
    let ghost mut acc: Seq<u8> = Seq::empty();
    assert(all.take(0) =~= Seq::empty());
    assert(out@ =~= middle + acc);
    let mut i: usize = 0;
    while i < pairs.len()
        invariant
            i <= pairs@.len(),
            all == pairs_view(pairs@),
            pairs_bytes(all.take(i as int)) == Ok::<Seq<u8>, CodecError>(acc),
            out@ == middle + acc,
            middle == old(out)@ + le_bytes(pairs@.len() as nat, 4),
            pairs@.len() <= u32::MAX,
            start == old(out)@.len(),
        decreases pairs@.len() - i,
    {
        proof {
            assert(all.take(i + 1).drop_last() =~= all.take(i as int));
            assert(all.take(i + 1).last() == (pairs@[i as int].0@, pairs@[i as int].1@));
        }
        match write_pair(out, pairs[i].0.as_str(), pairs[i].1.as_str()) {
            Ok(()) => {
                proof {
                    let b = then_bytes(
                        name_bytes(pairs@[i as int].0@),
                        name_bytes(pairs@[i as int].1@),
                    )->Ok_0;
                    assert(out@ =~= middle + (acc + b));
                    acc = acc + b;
                }
            },
            Err(e) => {
                proof {
                    lemma_pairs_error(all, i + 1);
                }
                out.truncate(start);
                assert(out@ =~= old(out)@);
                return Err(e);
            },
        }
        i += 1;
    }
    proof {
        assert(all.take(i as int) =~= all);
        assert(out@ =~= old(out)@ + (le_bytes(pairs@.len() as nat, 4) + acc));
    }
    Ok(())
}

/// Writes one variant.
fn write_variant(out: &mut Vec<u8>, variant: &(i64, String, String)) -> (r: Result<
    (),
    CodecError,
>)
    ensures
        appended(old(out)@, final(out)@, r, variant_bytes((variant.0, variant.1@, variant.2@))),
{
    let start = out.len();
    write_i64(out, variant.0);
    let ghost middle = out@;
    let r = write_pair(out, variant.1.as_str(), variant.2.as_str());
    let ghost after = out@;
    let done = finish(out, start, r);
    proof {
        lemma_appended_both(
            old(out)@,
            middle,
            after,
            out@,
            r,
            Ok(le_bytes(twos(variant.0 as int, 8), 8)),
            then_bytes(name_bytes(variant.1@), name_bytes(variant.2@)),
        );
    }
    done
}

/// Writes a list of variants, with its length.
fn write_variants(out: &mut Vec<u8>, variants: &Vec<(i64, String, String)>) -> (r: Result<
    (),
    CodecError,
>)
    ensures
        appended(
            old(out)@,
            final(out)@,
            r,
            counted(variants@.len(), variants_bytes(variants_view(variants@))),
        ),
{
    let ghost all = variants_view(variants@);
    let start = out.len();
    match write_count(out, variants.len()) {
        Ok(()) => {},
        Err(e) => {
            return Err(e);
        },
    }
    let ghost middle = out@;
    let ghost mut acc: Seq<u8> = Seq::empty();
    assert(all.take(0) =~= Seq::empty());
    assert(out@ =~= middle + acc);
    let mut i: usize = 0;
    while i < variants.len()
        invariant
            i <= variants@.len(),
            all == variants_view(variants@),
            variants_bytes(all.take(i as int)) == Ok::<Seq<u8>, CodecError>(acc),
            out@ == middle + acc,
            middle == old(out)@ + le_bytes(variants@.len() as nat, 4),
            variants@.len() <= u32::MAX,
            start == old(out)@.len(),
        decreases variants@.len() - i,
    {
        proof {
            assert(all.take(i + 1).drop_last() =~= all.take(i as int));
            assert(all.take(i + 1).last() == (
                variants@[i as int].0,
                variants@[i as int].1@,
                variants@[i as int].2@,
            ));
        }
        match write_variant(out, &variants[i]) {
            Ok(()) => {
                proof {
                    let b = variant_bytes(all[i as int])->Ok_0;
                    assert(out@ =~= middle + (acc + b));
                    acc = acc + b;
                }
            },
            Err(e) => {
                proof {
                    lemma_variants_error(all, i + 1);
                }
                out.truncate(start);
                assert(out@ =~= old(out)@);
                return Err(e);
            },
        }
        i += 1;
    }
    proof {
        assert(all.take(i as int) =~= all);
        assert(out@ =~= old(out)@ + (le_bytes(variants@.len() as nat, 4) + acc));
    }
    Ok(())
}

/// Writes the fields of a struct.
fn write_fields(out: &mut Vec<u8>, fields: &Fields) -> (r: Result<(), CodecError>)
    ensures
        appended(old(out)@, final(out)@, r, fields_bytes(fields@)),
{
    let start = out.len();
    proof {
        reveal_with_fuel(le_bytes, 2);
    }
    match fields {
        Fields::NamedFields(pairs) => {
            write_u8(out, 0);
            assert(out@ =~= old(out)@ + seq![0u8]);
            let ghost middle = out@;
            let r = write_pairs(out, pairs);
            let ghost after = out@;
            let done = finish(out, start, r);
            proof {
                lemma_appended_both(
                    old(out)@,
                    middle,
                    after,
                    out@,
                    r,
                    Ok(seq![0u8]),
                    counted(pairs@.len(), pairs_bytes(pairs_view(pairs@))),
                );
            }
            done
        },
        Fields::UnnamedFields(names) => {
            write_u8(out, 1);
            assert(out@ =~= old(out)@ + seq![1u8]);
            let ghost middle = out@;
            let r = write_names(out, names);
            let ghost after = out@;
            let done = finish(out, start, r);
            proof {
                lemma_appended_both(
                    old(out)@,
                    middle,
                    after,
                    out@,
                    r,
                    Ok(seq![1u8]),
                    counted(names@.len(), names_bytes(names_view(names@))),
                );
            }
            done
        },
        Fields::Empty => {
            write_u8(out, 2);
            assert(out@ =~= old(out)@ + seq![2u8]);
            Ok(())
        },
    }
}

/// Writes a definition.
fn write_definition(out: &mut Vec<u8>, definition: &Definition) -> (r: Result<(), CodecError>)
    ensures
        appended(old(out)@, final(out)@, r, definition_bytes(definition@)),
{
    let start = out.len();
    proof {
        reveal_with_fuel(le_bytes, 2);
    }
    match definition {
        Definition::Primitive(size) => {
            write_u8(out, 0);
            write_u8(out, *size);
            assert(out@ =~= old(out)@ + seq![0u8, *size]);
            Ok(())
        },
        Definition::Sequence { length_width, length_range, elements } => {
            write_u8(out, 1);
            write_u8(out, *length_width);
            write_u64(out, length_range.start);
            write_u64(out, length_range.end);
            let ghost head = seq![1u8, *length_width] + le_bytes(length_range.start as nat, 8)
                + le_bytes(length_range.end as nat, 8);
            assert(out@ =~= old(out)@ + head);
            let ghost middle = out@;
            let r = write_name(out, elements.as_str());
            let ghost after = out@;
            let done = finish(out, start, r);
            proof {
                lemma_appended_both(
                    old(out)@,
                    middle,
                    after,
                    out@,
                    r,
                    Ok(head),
                    name_bytes(elements@),
                );
            }
            done
        },
        Definition::Tuple { elements } => {
            write_u8(out, 2);
            assert(out@ =~= old(out)@ + seq![2u8]);
            let ghost middle = out@;
            let r = write_names(out, elements);
            let ghost after = out@;
            let done = finish(out, start, r);
            proof {
                lemma_appended_both(
                    old(out)@,
                    middle,
                    after,
                    out@,
                    r,
                    Ok(seq![2u8]),
                    counted(elements@.len(), names_bytes(names_view(elements@))),
                );
            }
            done
        },
        Definition::Enum { tag_width, variants } => {
            write_u8(out, 3);
            write_u8(out, *tag_width);
            assert(out@ =~= old(out)@ + seq![3u8, *tag_width]);
            let ghost middle = out@;
            let r = write_variants(out, variants);
            let ghost after = out@;
            let done = finish(out, start, r);
            proof {
                lemma_appended_both(
                    old(out)@,
                    middle,
                    after,
                    out@,
                    r,
                    Ok(seq![3u8, *tag_width]),
                    counted(variants@.len(), variants_bytes(variants_view(variants@))),
                );
            }
            done
        },
        Definition::Struct { fields } => {
            write_u8(out, 4);
            assert(out@ =~= old(out)@ + seq![4u8]);
            let ghost middle = out@;
            let r = write_fields(out, fields);
            let ghost after = out@;
            let done = finish(out, start, r);
            proof {
                lemma_appended_both(
                    old(out)@,
                    middle,
                    after,
                    out@,
                    r,
                    Ok(seq![4u8]),
                    fields_bytes(fields@),
                );
            }
            done
        },
    }
}

/// Writes a definition behind its name.
fn write_entry(out: &mut Vec<u8>, name: &str, definition: &Definition) -> (r: Result<
    (),
    CodecError,
>)
    ensures
        appended(
            old(out)@,
            final(out)@,
            r,
            then_bytes(name_bytes(name@), definition_bytes(definition@)),
        ),
{
    let start = out.len();
    match write_name(out, name) {
        Ok(()) => {},
        Err(e) => {
            return Err(e);
        },
    }
    let ghost middle = out@;
    let r = write_definition(out, definition);
    let ghost after = out@;
    let done = finish(out, start, r);
    proof {
        lemma_appended_both(
            old(out)@,
            middle,
            after,
            out@,
            r,
            name_bytes(name@),
            definition_bytes(definition@),
        );
    }
    done
}

/// Writes the definitions of a container, with their number.
fn write_definitions(out: &mut Vec<u8>, definitions: &Vec<(String, Definition)>) -> (r: Result<
    (),
    CodecError,
>)
    ensures
        appended(
            old(out)@,
            final(out)@,
            r,
            counted(definitions@.len(), definitions_bytes(definitions_view(definitions@))),
        ),
{
    let ghost all = definitions_view(definitions@);
    let start = out.len();
    match write_count(out, definitions.len()) {
        Ok(()) => {},
        Err(e) => {
            return Err(e);
        },
    }
    let ghost middle = out@;
    let ghost mut acc: Seq<u8> = Seq::empty();
    assert(all.take(0) =~= Seq::empty());
    assert(out@ =~= middle + acc);
    let mut i: usize = 0;
    while i < definitions.len()
        invariant
            i <= definitions@.len(),
            all == definitions_view(definitions@),
            definitions_bytes(all.take(i as int)) == Ok::<Seq<u8>, CodecError>(acc),
            out@ == middle + acc,
            middle == old(out)@ + le_bytes(definitions@.len() as nat, 4),
            definitions@.len() <= u32::MAX,
            start == old(out)@.len(),
        decreases definitions@.len() - i,
    {
        proof {
            assert(all.take(i + 1).drop_last() =~= all.take(i as int));
            assert(all.take(i + 1).last() == (definitions@[i as int].0@, definitions@[i as int].1@));
        }
        match write_entry(out, definitions[i].0.as_str(), &definitions[i].1) {
            Ok(()) => {
                proof {
                    let b = then_bytes(
                        name_bytes(definitions@[i as int].0@),
                        definition_bytes(definitions@[i as int].1@),
                    )->Ok_0;
                    assert(out@ =~= middle + (acc + b));
                    acc = acc + b;
                }
            },
            Err(e) => {
                proof {
                    lemma_definitions_error(all, i + 1);
                }
                out.truncate(start);
                assert(out@ =~= old(out)@);
                return Err(e);
            },
        }
        i += 1;
    }
    proof {
        assert(all.take(i as int) =~= all);
        assert(out@ =~= old(out)@ + (le_bytes(definitions@.len() as nat, 4) + acc));
    }
    Ok(())
}

/// The bytes of a schema container, or the error that stands in their way: a name or
/// a list too long for its `u32` length.
pub fn schema_to_bytes(schema: &Schema) -> (r: Result<Vec<u8>, CodecError>)
    ensures
        match schema_bytes(schema@) {
            Ok(bytes) => r matches Ok(out) && out@ == bytes,
            Err(e) => r matches Err(got) && got == e,
        },
{
    let mut out: Vec<u8> = Vec::new();
    match write_name(&mut out, schema.declaration().as_str()) {
        Ok(()) => {},
        Err(e) => {
            return Err(e);
        },
    }
    assert(out@ =~= name_bytes(schema@.declaration)->Ok_0);
    match write_definitions(&mut out, schema.definitions()) {
        Ok(()) => Ok(out),
        Err(e) => Err(e),
    }
}

} // verus!
