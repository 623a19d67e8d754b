//! What the hash encoding promises of objects: the order in which an
//! object's entries are listed does not change its encoding.

use vstd::prelude::*;
use vstd::utf8::encode_utf8_decode_utf8;
use crate::encoding::utf8;
use crate::hash_encoding::{entry_key_bytes, insert_by_key, sorted_entry_order, spec_encode_hash, spec_hash_entries};
use crate::bytes::u32_le;
use crate::encoding::TAG_OBJECT;
use crate::order::{lex_lt, lemma_lex_lt_asymmetric, lemma_lex_lt_irreflexive, lemma_lex_lt_total, lemma_lex_lt_transitive};
use crate::value::ValueModel;

verus! {

/// No two entries share a key.
pub open spec fn distinct_keys(es: Seq<(Seq<char>, ValueModel)>) -> bool {
    forall|a: int, b: int| 0 <= a < b < es.len() ==> #[trigger] es[a].0 != #[trigger] es[b].0
}

/// The indices list entries in strictly increasing key order.
pub open spec fn order_sorted(es: Seq<(Seq<char>, ValueModel)>, order: Seq<int>) -> bool {
    forall|a: int, b: int|
        0 <= a < b < order.len() ==> lex_lt(
            entry_key_bytes(es, #[trigger] order[a]),
            entry_key_bytes(es, #[trigger] order[b]),
        )
}

/// The indices are `0..m`, each once.
pub open spec fn is_range_perm(order: Seq<int>, m: int) -> bool {
    &&& order.len() == m
    &&& forall|k: int| 0 <= k < order.len() ==> 0 <= #[trigger] order[k] < m
    &&& forall|a: int, b: int| 0 <= a < b < order.len() ==> #[trigger] order[a] != #[trigger] order[b]
    &&& forall|i: int| 0 <= i < m ==> #[trigger] listed(order, i)
}

/// Index `i` is listed.
pub open spec fn listed(order: Seq<int>, i: int) -> bool {
    exists|k: int| 0 <= k < order.len() && order[k] == i
}

/// Entries sorted strictly by the bytes of their keys.
pub open spec fn entries_sorted(s: Seq<(Seq<char>, ValueModel)>) -> bool {
    forall|a: int, b: int| 0 <= a < b < s.len() ==> lex_lt(utf8((#[trigger] s[a]).0), utf8((#[trigger] s[b]).0))
}

/// The entries at the given indices.
pub open spec fn ents(es: Seq<(Seq<char>, ValueModel)>, order: Seq<int>) -> Seq<(Seq<char>, ValueModel)> {
    Seq::new(order.len(), |k: int| es[order[k]])
}

/// Where `insert_by_key` puts index `j`.
pub open spec fn insert_pos(order: Seq<int>, es: Seq<(Seq<char>, ValueModel)>, j: int) -> int
    decreases order.len(),
{
    if order.len() == 0 {
        0
    } else if lex_lt(entry_key_bytes(es, j), entry_key_bytes(es, order[0])) {
        0
    } else {
        1 + insert_pos(order.drop_first(), es, j)
    }
}

proof fn lemma_insert_pos(order: Seq<int>, es: Seq<(Seq<char>, ValueModel)>, j: int)
    ensures
        0 <= insert_pos(order, es, j) <= order.len(),
        forall|q: int|
            0 <= q < insert_pos(order, es, j) ==> !lex_lt(entry_key_bytes(es, j), entry_key_bytes(es, #[trigger] order[q])),
        insert_pos(order, es, j) < order.len() ==> lex_lt(
            entry_key_bytes(es, j),
            entry_key_bytes(es, order[insert_pos(order, es, j)]),
        ),
        insert_by_key(order, es, j) == order.take(insert_pos(order, es, j)).push(j) + order.skip(insert_pos(order, es, j)),
    decreases order.len(),
{
    let p = insert_pos(order, es, j);
    if order.len() == 0 {
        assert(order.take(0).push(j) + order.skip(0) =~= seq![j]);
    } else if lex_lt(entry_key_bytes(es, j), entry_key_bytes(es, order[0])) {
        assert(order.take(0).push(j) + order.skip(0) =~= seq![j] + order);
    } else {
        let o1 = order.drop_first();
        lemma_insert_pos(o1, es, j);
        assert forall|q: int| 0 <= q < p implies !lex_lt(entry_key_bytes(es, j), entry_key_bytes(es, #[trigger] order[q])) by {
            if q > 0 {
                assert(order[q] == o1[q - 1]);
            }
        }
        if p < order.len() {
            assert(order[p] == o1[p - 1]);
        }
        assert(seq![order[0]] + (o1.take(p - 1).push(j) + o1.skip(p - 1)) =~= order.take(p).push(j) + order.skip(p));
    }
}

/// Different keys have different bytes.
proof fn lemma_key_bytes_differ(es: Seq<(Seq<char>, ValueModel)>, a: int, b: int)
    requires
        0 <= a < es.len(),
        0 <= b < es.len(),
        es[a].0 != es[b].0,
    ensures
        entry_key_bytes(es, a) != entry_key_bytes(es, b),
{
    encode_utf8_decode_utf8(es[a].0);
    encode_utf8_decode_utf8(es[b].0);
}

/// The stable sort of the first `m` entries lists `0..m` once each, in
/// strictly increasing key order, when keys are distinct.
proof fn lemma_sorted_order(es: Seq<(Seq<char>, ValueModel)>, m: int)
    requires
        distinct_keys(es),
        0 <= m <= es.len(),
    ensures
        is_range_perm(sorted_entry_order(es, m), m),
        order_sorted(es, sorted_entry_order(es, m)),
    decreases m,
{
    if m > 0 {
        lemma_sorted_order(es, m - 1);
        let o = sorted_entry_order(es, m - 1);
        let j = m - 1;
        lemma_insert_pos(o, es, j);
        let p = insert_pos(o, es, j);
        let o2 = sorted_entry_order(es, m);
        assert(o2 == insert_by_key(o, es, j));
        assert(o2 == o.take(p).push(j) + o.skip(p));
        assert(o2.len() == m);
        assert forall|k: int| 0 <= k < o2.len() implies #[trigger] o2[k] == if k < p {
            o[k]
        } else if k == p {
            j
        } else {
            o[k - 1]
        } by {}
        assert forall|k: int| 0 <= k < o2.len() implies 0 <= #[trigger] o2[k] < m by {}
        assert forall|a: int, b: int| 0 <= a < b < o2.len() implies #[trigger] o2[a] != #[trigger] o2[b] by {}
        assert forall|i: int| 0 <= i < m implies #[trigger] listed(o2, i) by {
            if i == j {
                assert(o2[p] == i);
            } else {
                assert(listed(o, i));
                let k = choose|k: int| 0 <= k < o.len() && o[k] == i;
                if k < p {
                    assert(o2[k] == i);
                } else {
                    assert(o2[k + 1] == i);
                }
            }
        }
        assert forall|a: int, b: int| 0 <= a < b < o2.len() implies lex_lt(
            entry_key_bytes(es, #[trigger] o2[a]),
            entry_key_bytes(es, #[trigger] o2[b]),
        ) by {
            let kj = entry_key_bytes(es, j);
            if b < p {
            } else if b == p {
                assert(!lex_lt(kj, entry_key_bytes(es, o[a])));
                assert(es[o[a]].0 != es[j].0);
                lemma_key_bytes_differ(es, o[a], j);
                lemma_lex_lt_total(kj, entry_key_bytes(es, o[a]));
            } else if a < p {
                assert(o2[b] == o[b - 1]);
            } else if a == p {
                assert(o2[b] == o[b - 1]);
                assert(lex_lt(kj, entry_key_bytes(es, o[p])));
                if b - 1 > p {
                    assert(lex_lt(entry_key_bytes(es, o[p]), entry_key_bytes(es, o[b - 1])));
                    lemma_lex_lt_transitive(kj, entry_key_bytes(es, o[p]), entry_key_bytes(es, o[b - 1]));
                }
            } else {
                assert(o2[a] == o[a - 1] && o2[b] == o[b - 1]);
            }
        }
    }
}

/// Two key-sorted entry lists with the same entries are the same list.
proof fn lemma_sorted_unique(s1: Seq<(Seq<char>, ValueModel)>, s2: Seq<(Seq<char>, ValueModel)>)
    requires
        s1.len() == s2.len(),
        entries_sorted(s1),
        entries_sorted(s2),
        forall|e: (Seq<char>, ValueModel)| s1.contains(e) <==> s2.contains(e),
    ensures
        s1 == s2,
    decreases s1.len(),
{
    if s1.len() > 0 {
        let x = s1[0];
        let y = s2[0];
        assert(s1.contains(x));
        let k = choose|k: int| 0 <= k < s2.len() && s2[k] == x;
        assert(s2.contains(y));
        let k2 = choose|k2: int| 0 <= k2 < s1.len() && s1[k2] == y;
        if k > 0 {
            assert(lex_lt(utf8(s2[0].0), utf8(s2[k].0)));
            if k2 > 0 {
                assert(lex_lt(utf8(s1[0].0), utf8(s1[k2].0)));
                lemma_lex_lt_asymmetric(utf8(y.0), utf8(x.0));
            } else {
                lemma_lex_lt_irreflexive(utf8(x.0));
            }
        }
        assert(x == y);
        let t1 = s1.drop_first();
        let t2 = s2.drop_first();
        assert forall|e: (Seq<char>, ValueModel)| t1.contains(e) <==> t2.contains(e) by {
            if t1.contains(e) {
                let i = choose|i: int| 0 <= i < t1.len() && t1[i] == e;
                assert(s1[i + 1] == e);
                assert(lex_lt(utf8(s1[0].0), utf8(s1[i + 1].0)));
                lemma_lex_lt_irreflexive(utf8(e.0));
                assert(s2.contains(e));
                let i2 = choose|i2: int| 0 <= i2 < s2.len() && s2[i2] == e;
                assert(i2 != 0);
                assert(t2[i2 - 1] == e);
            }
            if t2.contains(e) {
                let i = choose|i: int| 0 <= i < t2.len() && t2[i] == e;
                assert(s2[i + 1] == e);
                assert(lex_lt(utf8(s2[0].0), utf8(s2[i + 1].0)));
                lemma_lex_lt_irreflexive(utf8(e.0));
                assert(s1.contains(e));
                let i2 = choose|i2: int| 0 <= i2 < s1.len() && s1[i2] == e;
                assert(i2 != 0);
                assert(t1[i2 - 1] == e);
            }
        }
        assert forall|a: int, b: int| 0 <= a < b < t1.len() implies lex_lt(utf8((#[trigger] t1[a]).0), utf8((#[trigger] t1[b]).0)) by {
            assert(t1[a] == s1[a + 1] && t1[b] == s1[b + 1]);
        }
        assert forall|a: int, b: int| 0 <= a < b < t2.len() implies lex_lt(utf8((#[trigger] t2[a]).0), utf8((#[trigger] t2[b]).0)) by {
            assert(t2[a] == s2[a + 1] && t2[b] == s2[b + 1]);
        }
        lemma_sorted_unique(t1, t2);
        assert(s1 =~= seq![x] + t1);
        assert(s2 =~= seq![y] + t2);
    }
}

/// The hashed entries depend only on the entries they list.
proof fn lemma_hash_entries_same(
    es1: Seq<(Seq<char>, ValueModel)>,
    o1: Seq<int>,
    es2: Seq<(Seq<char>, ValueModel)>,
    o2: Seq<int>,
    k: int,
)
    requires
        0 <= k,
        o1.len() == o2.len(),
        forall|i: int| 0 <= i < o1.len() ==> 0 <= #[trigger] o1[i] < es1.len(),
        forall|i: int| 0 <= i < o2.len() ==> 0 <= #[trigger] o2[i] < es2.len(),
        ents(es1, o1) == ents(es2, o2),
    ensures
        spec_hash_entries(es1, o1, k) == spec_hash_entries(es2, o2, k),
    decreases o1.len() - k,
{
    if k < o1.len() {
        lemma_hash_entries_same(es1, o1, es2, o2, k + 1);
        assert(ents(es1, o1)[k] == ents(es2, o2)[k]);
        assert(es1[o1[k]] == es2[o2[k]]);
    }
}

pub(crate) proof fn lemma_sorted_ents(es: Seq<(Seq<char>, ValueModel)>)
    requires
        distinct_keys(es),
    ensures
        entries_sorted(ents(es, sorted_entry_order(es, es.len() as int))),
        forall|e: (Seq<char>, ValueModel)|
            ents(es, sorted_entry_order(es, es.len() as int)).contains(e) <==> es.contains(e),
        is_range_perm(sorted_entry_order(es, es.len() as int), es.len() as int),
{
    let n = es.len() as int;
    lemma_sorted_order(es, n);
    let o = sorted_entry_order(es, n);
    let s = ents(es, o);
    assert forall|a: int, b: int| 0 <= a < b < s.len() implies lex_lt(utf8((#[trigger] s[a]).0), utf8((#[trigger] s[b]).0)) by {
        assert(lex_lt(entry_key_bytes(es, o[a]), entry_key_bytes(es, o[b])));
    }
    assert forall|e: (Seq<char>, ValueModel)| s.contains(e) <==> es.contains(e) by {
        if s.contains(e) {
            let k = choose|k: int| 0 <= k < s.len() && s[k] == e;
            assert(es[o[k]] == e);
        }
        if es.contains(e) {
            let i = choose|i: int| 0 <= i < es.len() && es[i] == e;
            assert(listed(o, i));
            let k = choose|k: int| 0 <= k < o.len() && o[k] == i;
            assert(s[k] == e);
        }
    }
}

/// Law: an object's hash encoding does not depend on the order in which
/// its entries are listed: two objects with the same entries (keys
/// distinct) encode alike.
pub proof fn law_object_hash_ignores_entry_order(es1: Seq<(Seq<char>, ValueModel)>, es2: Seq<(Seq<char>, ValueModel)>)
    requires
        distinct_keys(es1),
        distinct_keys(es2),
        es1.len() == es2.len(),
        forall|e: (Seq<char>, ValueModel)| es1.contains(e) <==> es2.contains(e),
    ensures
        spec_encode_hash(ValueModel::Object(es1)) == spec_encode_hash(ValueModel::Object(es2)),
{
    let n = es1.len() as int;
    lemma_sorted_ents(es1);
    lemma_sorted_ents(es2);
    let o1 = sorted_entry_order(es1, n);
    let o2 = sorted_entry_order(es2, n);
    assert forall|e: (Seq<char>, ValueModel)| ents(es1, o1).contains(e) <==> ents(es2, o2).contains(e) by {
        assert(ents(es1, o1).contains(e) <==> es1.contains(e));
        assert(ents(es2, o2).contains(e) <==> es2.contains(e));
    }
    lemma_sorted_unique(ents(es1, o1), ents(es2, o2));
    lemma_hash_entries_same(es1, o1, es2, o2, 0);
}

/// Entries from position `k` on, one after the other, each as key length,
/// key bytes, value length and value hash encoding.
pub open spec fn spec_entries_concat(s: Seq<(Seq<char>, ValueModel)>, k: int) -> Seq<u8>
    decreases s.len() - k,
{
    if k < 0 || k >= s.len() {
        seq![]
    } else {
        let kb = utf8(s[k].0);
        let h = spec_encode_hash(s[k].1);
        u32_le(kb.len() as u32) + kb + u32_le(h.len() as u32) + h + spec_entries_concat(s, k + 1)
    }
}

proof fn lemma_hash_entries_concat(es: Seq<(Seq<char>, ValueModel)>, o: Seq<int>, k: int)
    requires
        0 <= k,
        forall|i: int| 0 <= i < o.len() ==> 0 <= #[trigger] o[i] < es.len(),
    ensures
        spec_hash_entries(es, o, k) == spec_entries_concat(ents(es, o), k),
    decreases o.len() - k,
{
    if k < o.len() {
        lemma_hash_entries_concat(es, o, k + 1);
        assert(ents(es, o)[k] == es[o[k]]);
    }
}

/// Law: an object's hash encoding is its tag, its entry count and its
/// entries concatenated in increasing key order (by the bytes of the keys),
/// each as key length, key bytes, value length and value encoding: for any
/// listing `sorted` of the object's entries (keys distinct) in that order.
pub proof fn law_object_hash_sorted_form(es: Seq<(Seq<char>, ValueModel)>, sorted: Seq<(Seq<char>, ValueModel)>)
    requires
        distinct_keys(es),
        sorted.len() == es.len(),
        entries_sorted(sorted),
        forall|e: (Seq<char>, ValueModel)| sorted.contains(e) <==> es.contains(e),
    ensures
        spec_encode_hash(ValueModel::Object(es)) == seq![TAG_OBJECT] + u32_le(es.len() as u32) + spec_entries_concat(sorted, 0),
{
    let n = es.len() as int;
    lemma_sorted_ents(es);
    let o = sorted_entry_order(es, n);
    assert forall|e: (Seq<char>, ValueModel)| ents(es, o).contains(e) <==> sorted.contains(e) by {
        assert(ents(es, o).contains(e) <==> es.contains(e));
    }
    lemma_sorted_unique(ents(es, o), sorted);
    lemma_hash_entries_concat(es, o, 0);
}

} // verus!
