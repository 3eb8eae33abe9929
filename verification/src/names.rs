//! Names: equality and order of strings, decided on their UTF-8 bytes.
//!
//! A schema is keyed by declaration names and a JSON object by member names. Both
//! need equality; a schema also keeps its definitions in ascending order of their
//! names, which is the order of the names' UTF-8 bytes.
use vstd::prelude::*;
use vstd::string::*;
use vstd::utf8::*;

verus! {

/// Lexicographic order on byte sequences: `a` comes before `b` when, at the first
/// place where they differ, `a` has ended or holds the smaller byte.
pub open spec fn bytes_lt(a: Seq<u8>, b: Seq<u8>) -> bool {
    exists|k: int| #[trigger] bytes_lt_at(a, b, k)
}

/// `a` and `b` agree on their first `k` bytes, and there `a` ends or is smaller.
pub open spec fn bytes_lt_at(a: Seq<u8>, b: Seq<u8>, k: int) -> bool {
    &&& 0 <= k <= a.len()
    &&& k < b.len()
    &&& forall|i: int| 0 <= i < k ==> a[i] == b[i]
    &&& k < a.len() ==> a[k] < b[k]
}

/// The order of names: that of their UTF-8 bytes.
pub open spec fn name_lt(a: Seq<char>, b: Seq<char>) -> bool {
    bytes_lt(encode_utf8(a), encode_utf8(b))
}

/// How one name stands to another.
#[derive(Clone, Copy, Debug, PartialEq, Eq, Structural)]
pub enum NameOrder {
    Before,
    Same,
    After,
}

/// No byte sequence comes before itself.
pub proof fn lemma_bytes_lt_irreflexive(a: Seq<u8>)
    ensures
        !bytes_lt(a, a),
{
    assert forall|k: int| !#[trigger] bytes_lt_at(a, a, k) by {}
}

/// What comes before a byte sequence comes before everything behind it.
pub proof fn lemma_bytes_lt_transitive(a: Seq<u8>, b: Seq<u8>, c: Seq<u8>)
    requires
        bytes_lt(a, b),
        bytes_lt(b, c),
    ensures
        bytes_lt(a, c),
{
    let k1 = choose|k: int| #[trigger] bytes_lt_at(a, b, k);
    let k2 = choose|k: int| #[trigger] bytes_lt_at(b, c, k);
    if k1 < k2 {
        assert(bytes_lt_at(a, c, k1));
    } else {
        assert(bytes_lt_at(a, c, k2));
    }
}

/// No name comes before itself.
pub proof fn lemma_name_lt_irreflexive(a: Seq<char>)
    ensures
        !name_lt(a, a),
{
    lemma_bytes_lt_irreflexive(encode_utf8(a));
}

/// What comes before a name comes before everything behind it.
pub proof fn lemma_name_lt_transitive(a: Seq<char>, b: Seq<char>, c: Seq<char>)
    requires
        name_lt(a, b),
        name_lt(b, c),
    ensures
        name_lt(a, c),
{
    lemma_bytes_lt_transitive(encode_utf8(a), encode_utf8(b), encode_utf8(c));
}

/// Names with the same UTF-8 bytes are the same name.
pub proof fn lemma_utf8_injective(a: Seq<char>, b: Seq<char>)
    requires
        encode_utf8(a) == encode_utf8(b),
    ensures
        a == b,
{
    encode_utf8_decode_utf8(a);
    encode_utf8_decode_utf8(b);
}

/// Of two names one comes before the other, or they are the same, and only one of
/// the three.
pub proof fn lemma_name_order_is_total(a: Seq<char>, b: Seq<char>)
    ensures
        !(name_lt(a, b) && name_lt(b, a)),
        !(name_lt(a, b) && a == b),
        name_lt(a, b) || a == b || name_lt(b, a),
{
    let x = encode_utf8(a);
    let y = encode_utf8(b);
    if name_lt(a, b) && name_lt(b, a) {
        lemma_name_lt_transitive(a, b, a);
    }
    lemma_name_lt_irreflexive(a);
    if a != b {
        if x == y {
            lemma_utf8_injective(a, b);
        }
        lemma_first_difference(x, y, 0);
    }
}

/// Byte sequences that agree on their first `k` bytes and differ stand in order.
proof fn lemma_first_difference(x: Seq<u8>, y: Seq<u8>, k: int)
    requires
        0 <= k <= x.len(),
        k <= y.len(),
        forall|i: int| 0 <= i < k ==> x[i] == y[i],
        x != y,
    ensures
        bytes_lt(x, y) || bytes_lt(y, x),
    decreases x.len() - k,
{
    if k == x.len() {
        if k == y.len() {
            assert(x =~= y);
        } else {
            assert(bytes_lt_at(x, y, k));
        }
    } else if k == y.len() {
        assert(bytes_lt_at(y, x, k));
    } else if x[k] < y[k] {
        assert(bytes_lt_at(x, y, k));
    } else if x[k] > y[k] {
        assert(bytes_lt_at(y, x, k));
    } else {
        lemma_first_difference(x, y, k + 1);
    }
}

/// Compares two names byte by byte.
pub fn name_order(a: &str, b: &str) -> (r: NameOrder)
    ensures
        r == NameOrder::Before <==> name_lt(a@, b@),
        r == NameOrder::Same <==> a@ == b@,
        r == NameOrder::After <==> name_lt(b@, a@),
{
    proof {
        lemma_name_order_is_total(a@, b@);
        lemma_name_order_is_total(b@, a@);
    }
    let x = a.as_bytes();
    let y = b.as_bytes();
    let mut i: usize = 0;
    while i < x.len() && i < y.len()
        invariant
            i <= x@.len(),
            i <= y@.len(),
            x@ == encode_utf8(a@),
            y@ == encode_utf8(b@),
            forall|j: int| 0 <= j < i ==> x@[j] == y@[j],
        decreases x@.len() - i,
    {
        if x[i] < y[i] {
            proof {
                assert(bytes_lt_at(x@, y@, i as int));
            }
            return NameOrder::Before;
        }
        if x[i] > y[i] {
            proof {
                assert(bytes_lt_at(y@, x@, i as int));
            }
            return NameOrder::After;
        }
        i += 1;
    }
    if i < y.len() {
        proof {
            assert(bytes_lt_at(x@, y@, i as int));
        }
        NameOrder::Before
    } else if i < x.len() {
        proof {
            assert(bytes_lt_at(y@, x@, i as int));
        }
        NameOrder::After
    } else {
        proof {
            assert(x@ =~= y@);
            lemma_utf8_injective(a@, b@);
        }
        NameOrder::Same
    }
}

/// Whether two names are the same.
pub fn name_eq(a: &str, b: &str) -> (r: bool)
    ensures
        r == (a@ == b@),
{
    let x = a.as_bytes();
    let y = b.as_bytes();
    if x.len() != y.len() {
        return false;
    }
    let mut i: usize = 0;
    while i < x.len()
        invariant
            i <= x@.len(),
            x@.len() == y@.len(),
            x@ == encode_utf8(a@),
            y@ == encode_utf8(b@),
            forall|j: int| 0 <= j < i ==> x@[j] == y@[j],
        decreases x@.len() - i,
    {
        if x[i] != y[i] {
            return false;
        }
        i += 1;
    }
    proof {
        assert(x@ =~= y@);
        lemma_utf8_injective(a@, b@);
    }
    true
}

} // verus!
