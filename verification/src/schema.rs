//! The schema model: declarations, definitions and the container that holds them.
//!
//! A declaration is the name of a type. It is either one of the primitive names or a
//! name that the container maps to a [`Definition`]. The container keeps its
//! definitions in ascending order of their names, so that two containers with the
//! same definitions are the same value, whatever the order in which they were filled.
use crate::names::{
    lemma_name_lt_irreflexive, lemma_name_lt_transitive, name_eq, name_lt, name_order, NameOrder,
};
use vstd::prelude::*;
use vstd::string::*;

verus! {

/// The primitives, which a declaration refers to by name.
#[derive(Clone, Copy, Debug, PartialEq, Eq, Structural)]
pub enum Primitive {
    U8,
    U16,
    U32,
    U64,
    U128,
    I8,
    I16,
    I32,
    I64,
    I128,
    Float32,
    Float64,
    String,
    Bool,
}

/// The primitive that a declaration names, if it names one.
pub open spec fn primitive_of(name: Seq<char>) -> Option<Primitive> {
    if name == "u8"@ {
        Some(Primitive::U8)
    } else if name == "u16"@ {
        Some(Primitive::U16)
    } else if name == "u32"@ {
        Some(Primitive::U32)
    } else if name == "u64"@ {
        Some(Primitive::U64)
    } else if name == "u128"@ {
        Some(Primitive::U128)
    } else if name == "i8"@ {
        Some(Primitive::I8)
    } else if name == "i16"@ {
        Some(Primitive::I16)
    } else if name == "i32"@ {
        Some(Primitive::I32)
    } else if name == "i64"@ {
        Some(Primitive::I64)
    } else if name == "i128"@ {
        Some(Primitive::I128)
    } else if name == "f32"@ {
        Some(Primitive::Float32)
    } else if name == "f64"@ {
        Some(Primitive::Float64)
    } else if name == "String"@ {
        Some(Primitive::String)
    } else if name == "bool"@ {
        Some(Primitive::Bool)
    } else {
        None
    }
}

impl Primitive {
    /// The name by which a declaration refers to this primitive.
    pub open spec fn spec_name(self) -> Seq<char> {
        match self {
            Primitive::U8 => "u8"@,
            Primitive::U16 => "u16"@,
            Primitive::U32 => "u32"@,
            Primitive::U64 => "u64"@,
            Primitive::U128 => "u128"@,
            Primitive::I8 => "i8"@,
            Primitive::I16 => "i16"@,
            Primitive::I32 => "i32"@,
            Primitive::I64 => "i64"@,
            Primitive::I128 => "i128"@,
            Primitive::Float32 => "f32"@,
            Primitive::Float64 => "f64"@,
            Primitive::String => "String"@,
            Primitive::Bool => "bool"@,
        }
    }

    /// The number of bytes of a value on the wire; for a string, of its length prefix.
    pub open spec fn spec_width(self) -> nat {
        match self {
            Primitive::U8 | Primitive::I8 | Primitive::Bool => 1,
            Primitive::U16 | Primitive::I16 => 2,
            Primitive::U32 | Primitive::I32 | Primitive::Float32 | Primitive::String => 4,
            Primitive::U64 | Primitive::I64 | Primitive::Float64 => 8,
            Primitive::U128 | Primitive::I128 => 16,
        }
    }

    /// Finds the primitive that `name` refers to.
    pub fn from_name(name: &str) -> (r: Option<Primitive>)
        ensures
            r == primitive_of(name@),
    {
        if name_eq(name, "u8") {
            Some(Primitive::U8)
        } else if name_eq(name, "u16") {
            Some(Primitive::U16)
        } else if name_eq(name, "u32") {
            Some(Primitive::U32)
        } else if name_eq(name, "u64") {
            Some(Primitive::U64)
        } else if name_eq(name, "u128") {
            Some(Primitive::U128)
        } else if name_eq(name, "i8") {
            Some(Primitive::I8)
        } else if name_eq(name, "i16") {
            Some(Primitive::I16)
        } else if name_eq(name, "i32") {
            Some(Primitive::I32)
        } else if name_eq(name, "i64") {
            Some(Primitive::I64)
        } else if name_eq(name, "i128") {
            Some(Primitive::I128)
        } else if name_eq(name, "f32") {
            Some(Primitive::Float32)
        } else if name_eq(name, "f64") {
            Some(Primitive::Float64)
        } else if name_eq(name, "String") {
            Some(Primitive::String)
        } else if name_eq(name, "bool") {
            Some(Primitive::Bool)
        } else {
            None
        }
    }

    /// The name by which a declaration refers to this primitive.
    pub fn name(self) -> (r: &'static str)
        ensures
            r@ == self.spec_name(),
    {
        match self {
            Primitive::U8 => "u8",
            Primitive::U16 => "u16",
            Primitive::U32 => "u32",
            Primitive::U64 => "u64",
            Primitive::U128 => "u128",
            Primitive::I8 => "i8",
            Primitive::I16 => "i16",
            Primitive::I32 => "i32",
            Primitive::I64 => "i64",
            Primitive::I128 => "i128",
            Primitive::Float32 => "f32",
            Primitive::Float64 => "f64",
            Primitive::String => "String",
            Primitive::Bool => "bool",
        }
    }

    /// Every primitive is found again by its name.
    pub proof fn lemma_name_round_trip(self)
        ensures
            primitive_of(self.spec_name()) == Some(self),
    {
        reveal_strlit("u8");
        reveal_strlit("u16");
        reveal_strlit("u32");
        reveal_strlit("u64");
        reveal_strlit("u128");
        reveal_strlit("i8");
        reveal_strlit("i16");
        reveal_strlit("i32");
        reveal_strlit("i64");
        reveal_strlit("i128");
        reveal_strlit("f32");
        reveal_strlit("f64");
        reveal_strlit("String");
        reveal_strlit("bool");
        assert("u8"@.len() == 2);
        assert("u16"@.len() == 3 && "u16"@[1] == '1');
        assert("u32"@.len() == 3 && "u32"@[1] == '3');
        assert("u64"@.len() == 3 && "u64"@[1] == '6');
        assert("u128"@.len() == 4);
        assert("i8"@.len() == 2);
        assert("i16"@.len() == 3 && "i16"@[1] == '1');
        assert("i32"@.len() == 3 && "i32"@[1] == '3');
        assert("i64"@.len() == 3 && "i64"@[1] == '6');
        assert("i128"@.len() == 4);
        assert("f32"@.len() == 3 && "f32"@[1] == '3');
        assert("f64"@.len() == 3 && "f64"@[1] == '6');
        assert("String"@.len() == 6);
        assert("bool"@.len() == 4 && "bool"@[0] == 'b');
        assert("u8"@[0] == 'u' && "i8"@[0] == 'i');
        assert("u16"@[0] == 'u' && "i16"@[0] == 'i' && "u32"@[0] == 'u' && "i32"@[0] == 'i');
        assert("u64"@[0] == 'u' && "i64"@[0] == 'i' && "f32"@[0] == 'f' && "f64"@[0] == 'f');
        assert("u128"@[0] == 'u' && "i128"@[0] == 'i');
    }
}

/// The closed interval of element counts that a sequence may have.
#[derive(Clone, Copy, Debug, PartialEq, Eq, Structural)]
pub struct LengthRange {
    pub start: u64,
    pub end: u64,
}

/// The fields of a struct.
#[derive(Clone, Debug, PartialEq, Eq)]
pub enum Fields {
    /// Pairs of field name and declaration, in wire order.
    NamedFields(Vec<(String, String)>),
    /// Declarations, in wire order.
    UnnamedFields(Vec<String>),
    /// No payload.
    Empty,
}

/// The structure of a type that a declaration names.
#[derive(Clone, Debug, PartialEq, Eq)]
pub enum Definition {
    /// An opaque value of a fixed number of bytes.
    Primitive(u8),
    /// A repetition of `elements`. A `length_width` of zero means that the count is
    /// not written and equals `length_range.end`.
    Sequence { length_width: u8, length_range: LengthRange, elements: String },
    /// A fixed list of declarations.
    Tuple { elements: Vec<String> },
    /// A tagged union. Each variant is its discriminant, its name and the
    /// declaration of its payload; the wire holds the variant's position in the list.
    Enum { tag_width: u8, variants: Vec<(i64, String, String)> },
    /// A struct.
    Struct { fields: Fields },
}

/// What [`Fields`] stands for.
pub enum FieldsSpec {
    NamedFields(Seq<(Seq<char>, Seq<char>)>),
    UnnamedFields(Seq<Seq<char>>),
    Empty,
}

/// What a [`Definition`] stands for.
pub enum DefinitionSpec {
    Primitive(u8),
    Sequence { length_width: u8, length_range: LengthRange, elements: Seq<char> },
    Tuple { elements: Seq<Seq<char>> },
    Enum { tag_width: u8, variants: Seq<(i64, Seq<char>, Seq<char>)> },
    Struct { fields: FieldsSpec },
}

/// What a schema container stands for: its top-level declaration and its
/// definitions, each with its name.
pub struct SchemaSpec {
    pub declaration: Seq<char>,
    pub definitions: Seq<(Seq<char>, DefinitionSpec)>,
}

/// What a list of names stands for.
pub open spec fn names_view(v: Seq<String>) -> Seq<Seq<char>> {
    Seq::new(v.len(), |i: int| v[i]@)
}

/// What a list of pairs of names stands for.
pub open spec fn pairs_view(v: Seq<(String, String)>) -> Seq<(Seq<char>, Seq<char>)> {
    Seq::new(v.len(), |i: int| (v[i].0@, v[i].1@))
}

/// What a list of variants stands for.
pub open spec fn variants_view(v: Seq<(i64, String, String)>) -> Seq<(i64, Seq<char>, Seq<char>)> {
    Seq::new(v.len(), |i: int| (v[i].0, v[i].1@, v[i].2@))
}

/// What a list of definitions with their names stands for.
pub open spec fn definitions_view(v: Seq<(String, Definition)>) -> Seq<(Seq<char>, DefinitionSpec)> {
    Seq::new(v.len(), |i: int| (v[i].0@, v[i].1@))
}

impl View for Fields {
    type V = FieldsSpec;

    open spec fn view(&self) -> FieldsSpec {
        match self {
            Fields::NamedFields(fields) => FieldsSpec::NamedFields(pairs_view(fields@)),
            Fields::UnnamedFields(fields) => FieldsSpec::UnnamedFields(names_view(fields@)),
            Fields::Empty => FieldsSpec::Empty,
        }
    }
}

impl View for Definition {
    type V = DefinitionSpec;

    open spec fn view(&self) -> DefinitionSpec {
        match self {
            Definition::Primitive(size) => DefinitionSpec::Primitive(*size),
            Definition::Sequence { length_width, length_range, elements } => {
                DefinitionSpec::Sequence {
                    length_width: *length_width,
                    length_range: *length_range,
                    elements: elements@,
                }
            },
            Definition::Tuple { elements } => DefinitionSpec::Tuple {
                elements: names_view(elements@),
            },
            Definition::Enum { tag_width, variants } => DefinitionSpec::Enum {
                tag_width: *tag_width,
                variants: variants_view(variants@),
            },
            Definition::Struct { fields } => DefinitionSpec::Struct { fields: fields@ },
        }
    }
}

/// `i` is the first place in `keys` that holds `name`.
pub open spec fn is_first_at(keys: Seq<Seq<char>>, name: Seq<char>, i: int) -> bool {
    &&& 0 <= i < keys.len()
    &&& keys[i] == name
    &&& forall|j: int| 0 <= j < i ==> keys[j] != name
}

/// The first place in `keys` that holds `name`.
pub open spec fn first_index(keys: Seq<Seq<char>>, name: Seq<char>) -> Option<int> {
    if exists|i: int| is_first_at(keys, name, i) {
        Some(choose|i: int| is_first_at(keys, name, i))
    } else {
        None
    }
}

/// The first place that holds a name is what `first_index` returns.
pub proof fn lemma_first_index_found(keys: Seq<Seq<char>>, name: Seq<char>, i: int)
    requires
        is_first_at(keys, name, i),
    ensures
        first_index(keys, name) == Some(i),
{
    let c = choose|c: int| is_first_at(keys, name, c);
    if c < i {
        assert(keys[c] != name);
    } else if i < c {
        assert(keys[i] != name);
    }
}

/// A name that no place holds has no first place.
pub proof fn lemma_first_index_absent(keys: Seq<Seq<char>>, name: Seq<char>)
    requires
        forall|j: int| 0 <= j < keys.len() ==> keys[j] != name,
    ensures
        first_index(keys, name) is None,
{
}

/// What `first_index` returns is a place that holds the name, and the first one.
pub proof fn lemma_first_index_is_first(keys: Seq<Seq<char>>, name: Seq<char>)
    ensures
        first_index(keys, name) matches Some(i) ==> is_first_at(keys, name, i),
        first_index(keys, name) is None ==> forall|j: int|
            0 <= j < keys.len() ==> keys[j] != name,
{
    if first_index(keys, name) is None {
        assert forall|j: int| 0 <= j < keys.len() implies keys[j] != name by {
            if keys[j] == name {
                lemma_some_first(keys, name, j);
            }
        }
    }
}

/// Where a name occurs, it occurs first somewhere.
pub proof fn lemma_some_first(keys: Seq<Seq<char>>, name: Seq<char>, j: int)
    requires
        0 <= j < keys.len(),
        keys[j] == name,
    ensures
        exists|i: int| is_first_at(keys, name, i),
    decreases j,
{
    if exists|k: int| 0 <= k < j && keys[k] == name {
        let k = choose|k: int| 0 <= k < j && keys[k] == name;
        lemma_some_first(keys, name, k);
    } else {
        assert(is_first_at(keys, name, j));
    }
}

/// The names of a list of definitions.
pub open spec fn definition_names(defs: Seq<(Seq<char>, DefinitionSpec)>) -> Seq<Seq<char>> {
    Seq::new(defs.len(), |i: int| defs[i].0)
}

/// The definition that `defs` holds under `name`: the first one, if there are several.
pub open spec fn lookup(defs: Seq<(Seq<char>, DefinitionSpec)>, name: Seq<char>) -> Option<
    DefinitionSpec,
> {
    match first_index(definition_names(defs), name) {
        Some(i) => Some(defs[i].1),
        None => None,
    }
}

/// Whether the definitions stand in strictly ascending order of their names.
pub open spec fn sorted_by_name(defs: Seq<(Seq<char>, DefinitionSpec)>) -> bool {
    forall|i: int, j: int| 0 <= i < j < defs.len() ==> name_lt(#[trigger] defs[i].0, #[trigger] defs[j].0)
}

impl SchemaSpec {
    /// The definition of `name`, if the container has one.
    pub open spec fn definition(self, name: Seq<char>) -> Option<DefinitionSpec> {
        lookup(self.definitions, name)
    }
}

/// A schema container: a top-level declaration and the definitions that it needs.
#[derive(Debug, PartialEq, Eq)]
pub struct Schema {
    declaration: String,
    definitions: Vec<(String, Definition)>,
}

impl View for Schema {
    type V = SchemaSpec;

    closed spec fn view(&self) -> SchemaSpec {
        SchemaSpec {
            declaration: self.declaration@,
            definitions: definitions_view(self.definitions@),
        }
    }
}

impl Schema {
    #[verifier::type_invariant]
    spec fn ordered(&self) -> bool {
        sorted_by_name(definitions_view(self.definitions@))
    }

    /// A container for `declaration` that holds no definition yet.
    pub fn new(declaration: String) -> (r: Schema)
        ensures
            r@.declaration == declaration@,
            r@.definitions == Seq::<(Seq<char>, DefinitionSpec)>::empty(),
    {
        let r = Schema { declaration, definitions: Vec::new() };
        assert(definitions_view(r.definitions@) =~= Seq::empty());
        r
    }

    /// The top-level declaration.
    pub fn declaration(&self) -> (r: &String)
        ensures
            r@ == self@.declaration,
    {
        &self.declaration
    }

    /// The definitions with their names, in ascending order of the names.
    pub fn definitions(&self) -> (r: &Vec<(String, Definition)>)
        ensures
            definitions_view(r@) == self@.definitions,
            sorted_by_name(self@.definitions),
    {
        proof {
            use_type_invariant(self);
        }
        &self.definitions
    }

    /// The definition of `name`, if the container has one.
    pub fn get_definition(&self, name: &str) -> (r: Option<&Definition>)
        ensures
            r matches Some(d) ==> self@.definition(name@) == Some(d@),
            r is None ==> self@.definition(name@) is None,
    {
        let ghost keys = definition_names(self@.definitions);
        let mut i: usize = 0;
        while i < self.definitions.len()
            invariant
                i <= self.definitions@.len(),
                keys == definition_names(self@.definitions),
                forall|j: int| 0 <= j < i ==> keys[j] != name@,
            decreases self.definitions@.len() - i,
        {
            if name_eq(self.definitions[i].0.as_str(), name) {
                proof {
                    assert(is_first_at(keys, name@, i as int));
                    lemma_first_index_found(keys, name@, i as int);
                }
                return Some(&self.definitions[i].1);
            }
            i += 1;
        }
        proof {
            lemma_first_index_absent(keys, name@);
        }
        None
    }

    /// Puts `definition` under `name`, in place of the definition that the name had,
    /// if it had one. Every other name keeps its definition.
    pub fn insert(&mut self, name: String, definition: Definition)
        ensures
            final(self)@.declaration == old(self)@.declaration,
            final(self)@.definition(name@) == Some(definition@),
            forall|other: Seq<char>|
                other != name@ ==> final(self)@.definition(other) == old(self)@.definition(other),
            sorted_by_name(final(self)@.definitions),
    {
        proof {
            use_type_invariant(&*self);
        }
        let ghost before = self@.definitions;
        let mut p: usize = 0;
        let mut found = false;
        while p < self.definitions.len()
            invariant_except_break
                !found,
            invariant
                p <= self.definitions@.len(),
                self@.definitions == before,
                *self == *old(self),
                sorted_by_name(before),
                forall|j: int| 0 <= j < p ==> name_lt(before[j].0, name@),
            ensures
                p <= self.definitions@.len(),
                self@.definitions == before,
                *self == *old(self),
                sorted_by_name(before),
                forall|j: int| 0 <= j < p ==> name_lt(before[j].0, name@),
                found ==> p < before.len() && before[p as int].0 == name@,
                !found && p < before.len() ==> name_lt(name@, before[p as int].0),
            decreases self.definitions@.len() - p,
        {
            match name_order(self.definitions[p].0.as_str(), name.as_str()) {
                NameOrder::Before => {
                    p += 1;
                },
                NameOrder::Same => {
                    found = true;
                    break ;
                },
                NameOrder::After => {
                    break ;
                },
            }
        }
        let ghost entry = (name@, definition@);
        let mut taken = Schema { declaration: String::new(), definitions: Vec::new() };
        assert(definitions_view(taken.definitions@) =~= Seq::empty());
        core::mem::swap(self, &mut taken);
        let Schema { declaration, definitions } = taken;
        let mut definitions = definitions;
        assert(definitions_view(definitions@) == before);
        if found {
            definitions[p] = (name, definition);
            proof {
                let after = definitions_view(definitions@);
                assert(after =~= before.update(p as int, entry));
                lemma_replaced(before, after, p as int, entry);
            }
        } else {
            definitions.insert(p, (name, definition));
            proof {
                let after = definitions_view(definitions@);
                assert(after =~= before.insert(p as int, entry));
                lemma_inserted(before, after, p as int, entry);
            }
        }
        *self = Schema { declaration, definitions };
    }
}

/// Replacing the definition at a place keeps the order, and changes what is found
/// under that place's name only.
proof fn lemma_replaced(
    before: Seq<(Seq<char>, DefinitionSpec)>,
    after: Seq<(Seq<char>, DefinitionSpec)>,
    p: int,
    entry: (Seq<char>, DefinitionSpec),
)
    requires
        sorted_by_name(before),
        0 <= p < before.len(),
        before[p].0 == entry.0,
        after == before.update(p, entry),
    ensures
        sorted_by_name(after),
        lookup(after, entry.0) == Some(entry.1),
        forall|other: Seq<char>| other != entry.0 ==> lookup(after, other) == lookup(before, other),
{
    let keys = definition_names(before);
    assert(definition_names(after) =~= keys);
    assert forall|j: int| 0 <= j < p implies keys[j] != entry.0 by {
        assert(name_lt(before[j].0, before[p].0));
        lemma_name_lt_irreflexive(entry.0);
    }
    assert(is_first_at(keys, entry.0, p));
    lemma_first_index_found(keys, entry.0, p);
    assert forall|other: Seq<char>| other != entry.0 implies lookup(after, other) == lookup(
        before,
        other,
    ) by {
        lemma_first_index_is_first(keys, other);
    }
}

/// Inserting a definition at the place that its name belongs to keeps the order, and
/// changes what is found under that name only.
proof fn lemma_inserted(
    before: Seq<(Seq<char>, DefinitionSpec)>,
    after: Seq<(Seq<char>, DefinitionSpec)>,
    p: int,
    entry: (Seq<char>, DefinitionSpec),
)
    requires
        sorted_by_name(before),
        0 <= p <= before.len(),
        forall|j: int| 0 <= j < p ==> name_lt(before[j].0, entry.0),
        p < before.len() ==> name_lt(entry.0, before[p].0),
        after == before.insert(p, entry),
    ensures
        sorted_by_name(after),
        lookup(after, entry.0) == Some(entry.1),
        forall|other: Seq<char>| other != entry.0 ==> lookup(after, other) == lookup(before, other),
{
    let keys = definition_names(before);
    let keys2 = definition_names(after);
    assert forall|j: int| p <= j < before.len() implies name_lt(entry.0, before[j].0) by {
        if j > p {
            assert(name_lt(before[p].0, before[j].0));
            lemma_name_lt_transitive(entry.0, before[p].0, before[j].0);
        }
    }
    assert forall|i: int, j: int| 0 <= i < j < after.len() implies name_lt(
        #[trigger] after[i].0,
        #[trigger] after[j].0,
    ) by {
        if j < p {
            assert(name_lt(before[i].0, before[j].0));
        } else if j == p {
        } else if i < p {
            assert(name_lt(before[i].0, before[j - 1].0));
        } else if i == p {
        } else {
            assert(name_lt(before[i - 1].0, before[j - 1].0));
        }
    }
    assert forall|j: int| 0 <= j < p implies keys2[j] != entry.0 by {
        lemma_name_lt_irreflexive(entry.0);
    }
    assert(is_first_at(keys2, entry.0, p));
    lemma_first_index_found(keys2, entry.0, p);
    assert forall|other: Seq<char>| other != entry.0 implies lookup(after, other) == lookup(
        before,
        other,
    ) by {
        lemma_first_index_is_first(keys, other);
        match first_index(keys, other) {
            Some(i) => {
                let i2 = if i < p {
                    i
                } else {
                    i + 1
                };
                assert forall|j: int| 0 <= j < i2 implies keys2[j] != other by {
                    if j < p {
                        assert(keys2[j] == keys[j]);
                    } else if j > p {
                        assert(keys2[j] == keys[j - 1]);
                    }
                }
                assert(is_first_at(keys2, other, i2));
                lemma_first_index_found(keys2, other, i2);
            },
            None => {
                assert forall|j: int| 0 <= j < keys2.len() implies keys2[j] != other by {
                    if j < p {
                        assert(keys2[j] == keys[j]);
                    } else if j > p {
                        assert(keys2[j] == keys[j - 1]);
                    }
                }
                lemma_first_index_absent(keys2, other);
            },
        }
    }
}

} // verus!
