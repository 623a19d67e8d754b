//! Lexicographic order of byte strings, the order in which the storage
//! engine keeps its keys.

use vstd::prelude::*;
use vstd::relations::total_ordering;
use vstd::utf8::encode_utf8_decode_utf8;
use crate::encoding::utf8;
use crate::hash_encoding::bytes_lt;

verus! {

/// `a` sorts strictly before `b` bytewise (a proper prefix sorts first), as
/// `<` on byte vectors does.
pub open spec fn lex_lt(a: Seq<u8>, b: Seq<u8>) -> bool
    decreases a.len(),
{
    if b.len() == 0 {
        false
    } else if a.len() == 0 {
        true
    } else if a[0] != b[0] {
        a[0] < b[0]
    } else {
        lex_lt(a.drop_first(), b.drop_first())
    }
}

/// `a` and `b` agree before index `i` and `a[i] < b[i]`.
pub open spec fn first_lower_at(a: Seq<u8>, b: Seq<u8>, i: int) -> bool {
    &&& 0 <= i < a.len()
    &&& i < b.len()
    &&& a[i] < b[i]
    &&& forall|j: int| 0 <= j < i ==> #[trigger] a[j] == b[j]
}

pub proof fn lemma_lex_lt_at(a: Seq<u8>, b: Seq<u8>, i: int)
    requires
        first_lower_at(a, b, i),
    ensures
        lex_lt(a, b),
    decreases i,
{
    if i > 0 {
        assert(a[0] == b[0]);
        let a1 = a.drop_first();
        let b1 = b.drop_first();
        assert forall|j: int| 0 <= j < i - 1 implies #[trigger] a1[j] == b1[j] by {
            assert(a[j + 1] == b[j + 1]);
        }
        lemma_lex_lt_at(a1, b1, i - 1);
    }
}

pub proof fn lemma_lex_lt_proper_prefix(a: Seq<u8>, b: Seq<u8>)
    requires
        a.len() < b.len(),
        a == b.take(a.len() as int),
    ensures
        lex_lt(a, b),
    decreases a.len(),
{
    if a.len() > 0 {
        assert(a[0] == b[0]);
        assert(a.drop_first() =~= b.drop_first().take(a.len() - 1));
        lemma_lex_lt_proper_prefix(a.drop_first(), b.drop_first());
    }
}

pub proof fn lemma_lex_lt_prepend(p: Seq<u8>, a: Seq<u8>, b: Seq<u8>)
    requires
        lex_lt(a, b),
    ensures
        lex_lt(p + a, p + b),
    decreases p.len(),
{
    if p.len() > 0 {
        assert((p + a).drop_first() =~= p.drop_first() + a);
        assert((p + b).drop_first() =~= p.drop_first() + b);
        lemma_lex_lt_prepend(p.drop_first(), a, b);
    } else {
        assert(p + a =~= a);
        assert(p + b =~= b);
    }
}

/// A first difference keeps its place under a common prefix and any suffixes.
pub proof fn lemma_first_lower_extend(p: Seq<u8>, a: Seq<u8>, b: Seq<u8>, i: int, sa: Seq<u8>, sb: Seq<u8>)
    requires
        first_lower_at(a, b, i),
    ensures
        first_lower_at(p + a + sa, p + b + sb, p.len() + i),
        lex_lt(p + a + sa, p + b + sb),
{
    let x = p + a + sa;
    let y = p + b + sb;
    assert forall|j: int| 0 <= j < p.len() + i implies #[trigger] x[j] == y[j] by {
        if j >= p.len() {
            assert(a[j - p.len()] == b[j - p.len()]);
        }
    }
    lemma_lex_lt_at(x, y, p.len() + i);
}

/// `a` sorts before `b` either at a first differing byte or as a proper
/// prefix of it.
pub proof fn lemma_lex_lt_cases(a: Seq<u8>, b: Seq<u8>)
    requires
        lex_lt(a, b),
    ensures
        (exists|i: int| first_lower_at(a, b, i)) || (a.len() < b.len() && a == b.take(a.len() as int)),
    decreases a.len(),
{
    if a.len() == 0 {
        assert(a =~= b.take(0));
    } else if a[0] != b[0] {
        assert(first_lower_at(a, b, 0));
    } else {
        let a1 = a.drop_first();
        let b1 = b.drop_first();
        lemma_lex_lt_cases(a1, b1);
        if exists|i: int| first_lower_at(a1, b1, i) {
            let i = choose|i: int| first_lower_at(a1, b1, i);
            assert forall|j: int| 0 <= j < i + 1 implies #[trigger] a[j] == b[j] by {
                if j > 0 {
                    assert(a1[j - 1] == b1[j - 1]);
                }
            }
            assert(first_lower_at(a, b, i + 1));
        } else {
            assert(a =~= b.take(a.len() as int)) by {
                assert forall|j: int| 0 <= j < a.len() implies a[j] == b.take(a.len() as int)[j] by {
                    if j > 0 {
                        assert(a1[j - 1] == b1.take(a1.len() as int)[j - 1]);
                    }
                }
            }
        }
    }
}

/// A first difference within both strings decides the order of any
/// extensions of them.
pub proof fn lemma_lex_lt_extend(a: Seq<u8>, b: Seq<u8>, ra: Seq<u8>, rb: Seq<u8>)
    requires
        lex_lt(a, b),
        !(a.len() < b.len() && a == b.take(a.len() as int)),
    ensures
        lex_lt(a + ra, b + rb),
{
    lemma_lex_lt_cases(a, b);
    let i = choose|i: int| first_lower_at(a, b, i);
    lemma_first_lower_extend(Seq::<u8>::empty(), a, b, i, ra, rb);
    assert(Seq::<u8>::empty() + a + ra =~= a + ra);
    assert(Seq::<u8>::empty() + b + rb =~= b + rb);
}

pub proof fn lemma_lex_lt_irreflexive(a: Seq<u8>)
    ensures
        !lex_lt(a, a),
    decreases a.len(),
{
    if a.len() > 0 {
        lemma_lex_lt_irreflexive(a.drop_first());
    }
}

pub proof fn lemma_lex_lt_transitive(a: Seq<u8>, b: Seq<u8>, c: Seq<u8>)
    requires
        lex_lt(a, b),
        lex_lt(b, c),
    ensures
        lex_lt(a, c),
    decreases a.len(),
{
    if a.len() > 0 && b.len() > 0 && c.len() > 0 && a[0] == b[0] && b[0] == c[0] {
        lemma_lex_lt_transitive(a.drop_first(), b.drop_first(), c.drop_first());
    }
}

} // verus!

verus! {

/// Two different byte strings are ordered one way or the other.
pub proof fn lemma_lex_lt_total(a: Seq<u8>, b: Seq<u8>)
    requires
        a != b,
    ensures
        lex_lt(a, b) || lex_lt(b, a),
    decreases a.len(),
{
    if a.len() == 0 {
        if b.len() == 0 {
            assert(a =~= b);
        }
    } else if b.len() == 0 {
    } else if a[0] == b[0] {
        if a.drop_first() == b.drop_first() {
            assert(a =~= seq![a[0]] + a.drop_first());
            assert(b =~= seq![b[0]] + b.drop_first());
        }
        lemma_lex_lt_total(a.drop_first(), b.drop_first());
    }
}

/// The order is asymmetric.
pub proof fn lemma_lex_lt_asymmetric(a: Seq<u8>, b: Seq<u8>)
    requires
        lex_lt(a, b),
    ensures
        !lex_lt(b, a),
{
    if lex_lt(b, a) {
        lemma_lex_lt_transitive(a, b, a);
        lemma_lex_lt_irreflexive(a);
    }
}

/// `a` sorts no later than `b` in the order of `str`: bytewise on UTF-8.
pub open spec fn text_le(a: Seq<char>, b: Seq<char>) -> bool {
    !lex_lt(utf8(b), utf8(a))
}

/// The order of `str` as a relation.
pub open spec fn text_order() -> spec_fn(Seq<char>, Seq<char>) -> bool {
    |a: Seq<char>, b: Seq<char>| text_le(a, b)
}

/// The order of `str` is a total order.
pub proof fn lemma_text_order_total()
    ensures
        total_ordering(text_order()),
{
    let r = text_order();
    assert forall|x: Seq<char>| #[trigger] r(x, x) by {
        lemma_lex_lt_irreflexive(utf8(x));
    }
    assert forall|x: Seq<char>, y: Seq<char>| #[trigger] r(x, y) && #[trigger] r(y, x) implies x == y by {
        if utf8(x) != utf8(y) {
            lemma_lex_lt_total(utf8(x), utf8(y));
        }
        encode_utf8_decode_utf8(x);
        encode_utf8_decode_utf8(y);
    }
    assert forall|x: Seq<char>, y: Seq<char>, z: Seq<char>| #[trigger] r(x, y) && #[trigger] r(y, z) implies r(x, z) by {
        if lex_lt(utf8(z), utf8(x)) {
            if utf8(x) == utf8(y) {
            } else {
                lemma_lex_lt_total(utf8(x), utf8(y));
                lemma_lex_lt_transitive(utf8(z), utf8(x), utf8(y));
            }
        }
    }
    assert forall|x: Seq<char>, y: Seq<char>| #[trigger] r(x, y) || #[trigger] r(y, x) by {
        if utf8(x) != utf8(y) {
            lemma_lex_lt_total(utf8(x), utf8(y));
            if lex_lt(utf8(x), utf8(y)) {
                lemma_lex_lt_asymmetric(utf8(x), utf8(y));
            } else {
                lemma_lex_lt_asymmetric(utf8(y), utf8(x));
            }
        } else {
            lemma_lex_lt_irreflexive(utf8(x));
        }
    }
}

/// `a` sorts strictly before `b` in the order of `str`.
pub fn text_lt(a: &str, b: &str) -> (r: bool)
    ensures
        r == lex_lt(utf8(a@), utf8(b@)),
{
    let x = a.as_bytes();
    let y = b.as_bytes();
    proof {
        encode_utf8_decode_utf8(a@);
        encode_utf8_decode_utf8(b@);
        assert(x@ == utf8(a@));
        assert(y@ == utf8(b@));
    }
    bytes_lt(x, y)
}

} // verus!
