//! Reading edge keys back: the node and edge id that an OUT, IN or field
//! index key carries after its zero-byte separators.

use vstd::prelude::*;
use vstd::string::*;
use crate::config::StorageError;
use crate::external::{utf8_lossy, utf8_lossy_string};
use crate::encoding::{spec_pair_key, spec_triple_key, utf8};
use crate::key_laws::lemma_utf8_bytes;

verus! {

/// How many edges of a label may join the same two nodes.
#[derive(Clone, Copy, PartialEq, Eq, Structural, Debug)]
pub enum EdgeCardinality {
    /// At most one; the IN entry's value holds the edge id.
    Single,
    /// Any number; the edge id ends the key.
    Multiple,
}

/// Index of the first zero byte.
pub open spec fn first_zero(b: Seq<u8>) -> Option<int>
    decreases b.len(),
{
    if b.len() == 0 {
        None
    } else if b[0] == 0 {
        Some(0)
    } else {
        match first_zero(b.drop_first()) {
            Some(i) => Some(i + 1),
            None => None,
        }
    }
}

/// The pieces between zero bytes, as `split` on byte slices gives them.
pub open spec fn zero_split(b: Seq<u8>) -> Seq<Seq<u8>>
    decreases b.len(),
{
    match first_zero(b) {
        None => seq![b],
        Some(i) => if 0 <= i < b.len() {
            seq![b.take(i)] + zero_split(b.skip(i + 1))
        } else {
            seq![b]
        },
    }
}

pub proof fn lemma_first_zero(b: Seq<u8>, k: int)
    requires
        0 <= k <= b.len(),
        forall|j: int| 0 <= j < k ==> #[trigger] b[j] != 0,
    ensures
        k < b.len() && b[k] == 0 ==> first_zero(b) == Some(k),
        k == b.len() ==> first_zero(b) is None,
    decreases k,
{
    if k > 0 {
        assert(b[0] != 0);
        assert forall|j: int| 0 <= j < k - 1 implies #[trigger] b.drop_first()[j] != 0 by {
            assert(b[j + 1] != 0);
        }
        lemma_first_zero(b.drop_first(), k - 1);
    }
}

/// The pieces of `key` between zero bytes.
pub fn split_on_zero(key: &[u8]) -> (r: Vec<Vec<u8>>)
    ensures
        r@.map_values(|p: Vec<u8>| p@) == zero_split(key@),
{
    let ghost kv = key@;
    let mut parts: Vec<Vec<u8>> = Vec::new();
    let mut start: usize = 0;
    let mut i: usize = 0;
    assert(kv.skip(0) =~= kv);
    assert(parts@.map_values(|p: Vec<u8>| p@) =~= Seq::<Seq<u8>>::empty());
    assert(Seq::<Seq<u8>>::empty() + zero_split(kv) =~= zero_split(kv));
    while i < key.len()
        invariant
            start <= i <= kv.len(),
            kv == key@,
            forall|j: int| start <= j < i ==> #[trigger] kv[j] != 0,
            parts@.map_values(|p: Vec<u8>| p@) + zero_split(kv.skip(start as int)) == zero_split(kv),
        decreases kv.len() - i,
    {
        if key[i] == 0 {
            let piece = vstd::slice::slice_to_vec(vstd::slice::slice_subrange(key, start, i));
            proof {
                let s = kv.skip(start as int);
                assert forall|j: int| 0 <= j < i - start implies #[trigger] s[j] != 0 by {
                    assert(s[j] == kv[start + j]);
                }
                lemma_first_zero(s, i - start);
                assert(s.take(i - start) =~= piece@);
                assert(s.skip(i - start + 1) =~= kv.skip(i + 1));
            }
            let ghost before = parts@.map_values(|p: Vec<u8>| p@);
            parts.push(piece);
            assert(parts@.map_values(|p: Vec<u8>| p@) =~= before.push(piece@));
            start = i + 1;
        }
        i = i + 1;
    }
    let last = vstd::slice::slice_to_vec(vstd::slice::slice_subrange(key, start, key.len()));
    proof {
        let s = kv.skip(start as int);
        assert forall|j: int| 0 <= j < s.len() implies #[trigger] s[j] != 0 by {
            assert(s[j] == kv[start + j]);
        }
        lemma_first_zero(s, s.len() as int);
        assert(last@ =~= s);
    }
    let ghost before = parts@.map_values(|p: Vec<u8>| p@);
    parts.push(last);
    assert(parts@.map_values(|p: Vec<u8>| p@) =~= before.push(last@));
    parts
}

/// The target node of an OUT key (`prefix from | 0x00 | to [| 0x00 | id]`):
/// the text of its second piece.
pub fn parse_out_key_target(key: &[u8]) -> (r: Result<String, StorageError>)
    ensures
        zero_split(key@).len() < 2 ==> (r matches Err(StorageError::Serialization(m)) && m@ == "Invalid OUT key format"@),
        zero_split(key@).len() >= 2 ==> (r matches Ok(t) && t@ == utf8_lossy(zero_split(key@)[1])),
{
    let parts = split_on_zero(key);
    assert(parts@.map_values(|p: Vec<u8>| p@).len() == parts@.len());
    if parts.len() < 2 {
        return Err(StorageError::Serialization(String::from_str("Invalid OUT key format")));
    }
    assert(parts@[1]@ == zero_split(key@)[1]);
    Ok(utf8_lossy_string(parts[1].as_slice()))
}

/// The source node and edge id of an IN key (`prefix to | 0x00 | from
/// [| 0x00 | id]`) and its value: the id is the value for single edges and
/// the key's third piece for multiple edges.
pub fn parse_in_key_and_value(key: &[u8], value: &[u8], cardinality: EdgeCardinality) -> (r: Result<(String, String), StorageError>)
    ensures
        zero_split(key@).len() < 2 ==> (r matches Err(StorageError::Serialization(m)) && m@ == "Invalid IN key format"@),
        zero_split(key@).len() >= 2 && cardinality == EdgeCardinality::Single ==> (r matches Ok((from, id))
            && from@ == utf8_lossy(zero_split(key@)[1]) && id@ == utf8_lossy(value@)),
        zero_split(key@).len() >= 3 && cardinality == EdgeCardinality::Multiple ==> (r matches Ok((from, id))
            && from@ == utf8_lossy(zero_split(key@)[1]) && id@ == utf8_lossy(zero_split(key@)[2])),
        zero_split(key@).len() == 2 && cardinality == EdgeCardinality::Multiple ==> (r matches Err(StorageError::Serialization(m))
            && m@ == "Missing edge_id in multi key"@),
{
    let parts = split_on_zero(key);
    assert(parts@.map_values(|p: Vec<u8>| p@).len() == parts@.len());
    if parts.len() < 2 {
        return Err(StorageError::Serialization(String::from_str("Invalid IN key format")));
    }
    assert(parts@[1]@ == zero_split(key@)[1]);
    let from = utf8_lossy_string(parts[1].as_slice());
    let edge_id = match cardinality {
        EdgeCardinality::Single => utf8_lossy_string(value),
        EdgeCardinality::Multiple => {
            if parts.len() >= 3 {
                assert(parts@[2]@ == zero_split(key@)[2]);
                utf8_lossy_string(parts[2].as_slice())
            } else {
                return Err(StorageError::Serialization(String::from_str("Missing edge_id in multi key")));
            }
        },
    };
    Ok((from, edge_id))
}

/// The edge id of a field-index key: the text of its last piece.
pub fn extract_edge_id_from_index_key(key: &[u8]) -> (r: Option<String>)
    ensures
        r matches Some(id) && id@ == utf8_lossy(zero_split(key@).last()),
{
    let parts = split_on_zero(key);
    proof {
        lemma_zero_split_nonempty(key@);
    }
    assert(parts@.map_values(|p: Vec<u8>| p@).len() == parts@.len());
    let n = parts.len();
    assert(parts@[n - 1]@ == zero_split(key@).last());
    Some(utf8_lossy_string(parts[n - 1].as_slice()))
}

proof fn lemma_zero_split_nonempty(b: Seq<u8>)
    ensures
        zero_split(b).len() >= 1,
    decreases b.len(),
{
    match first_zero(b) {
        None => {},
        Some(i) => {
            if 0 <= i < b.len() {
                lemma_zero_split_nonempty(b.skip(i + 1));
            }
        },
    }
}

/// The pieces of `a + [0] + rest` when `a` holds no zero byte.
proof fn lemma_zero_split_cons(a: Seq<u8>, rest: Seq<u8>)
    requires
        forall|j: int| 0 <= j < a.len() ==> #[trigger] a[j] != 0,
    ensures
        zero_split(a + seq![0u8] + rest) == seq![a] + zero_split(rest),
{
    let b = a + seq![0u8] + rest;
    assert forall|j: int| 0 <= j < a.len() implies #[trigger] b[j] != 0 by {
        assert(b[j] == a[j]);
    }
    lemma_first_zero(b, a.len() as int);
    assert(b.take(a.len() as int) =~= a);
    assert(b.skip(a.len() as int + 1) =~= rest);
}

proof fn lemma_zero_split_single(a: Seq<u8>)
    requires
        forall|j: int| 0 <= j < a.len() ==> #[trigger] a[j] != 0,
    ensures
        zero_split(a) == seq![a],
{
    lemma_first_zero(a, a.len() as int);
}

pub open spec fn no_nul(s: Seq<char>) -> bool {
    forall|j: int| 0 <= j < s.len() ==> #[trigger] s[j] != '\0'
}

/// Law: edge keys split back into the pieces they were built from: the
/// prefix byte with the first node, then the other node, then the edge id,
/// so long as no node or id holds a zero character and the prefix byte is
/// not zero.
pub proof fn law_edge_keys_split_back(prefix: u8, a: Seq<char>, b: Seq<char>, id: Seq<char>)
    requires
        prefix != 0,
        no_nul(a),
        no_nul(b),
        no_nul(id),
    ensures
        zero_split(spec_pair_key(prefix, a, b)) == seq![seq![prefix] + utf8(a), utf8(b)],
        zero_split(spec_triple_key(prefix, a, b, id)) == seq![seq![prefix] + utf8(a), utf8(b), utf8(id)],
{
    lemma_utf8_bytes(a);
    lemma_utf8_bytes(b);
    lemma_utf8_bytes(id);
    let head = seq![prefix] + utf8(a);
    assert forall|j: int| 0 <= j < head.len() implies #[trigger] head[j] != 0 by {
        if j > 0 {
            assert(head[j] == utf8(a)[j - 1]);
        }
    }
    lemma_zero_split_single(utf8(b));
    lemma_zero_split_single(utf8(id));
    assert(spec_pair_key(prefix, a, b) =~= head + seq![0u8] + utf8(b));
    lemma_zero_split_cons(head, utf8(b));
    assert(seq![head] + seq![utf8(b)] =~= seq![head, utf8(b)]);
    lemma_zero_split_cons(utf8(b), utf8(id));
    assert(spec_triple_key(prefix, a, b, id) =~= head + seq![0u8] + (utf8(b) + seq![0u8] + utf8(id)));
    lemma_zero_split_cons(head, utf8(b) + seq![0u8] + utf8(id));
    assert(seq![head] + (seq![utf8(b)] + seq![utf8(id)]) =~= seq![head, utf8(b), utf8(id)]);
}

} // verus!
