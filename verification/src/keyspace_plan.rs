//! Keyspace bookkeeping: the names of a collection's keyspaces and of index
//! build keyspaces, and how a keyspace is copied in bounded write batches.

use vstd::prelude::*;
use crate::document::str_eq;

verus! {

/// Items in one copy batch at most.
pub const COPY_BATCH_ITEMS: usize = 4096;

/// Bytes (keys and values) in one copy batch at most, unless a single item
/// is larger.
pub const COPY_BATCH_BYTES: usize = 67108864;

/// `x + y`, or `usize::MAX` when that does not fit.
pub open spec fn sat_add(x: usize, y: usize) -> usize {
    if x + y > usize::MAX {
        usize::MAX
    } else {
        (x + y) as usize
    }
}

/// Whether the batch so far must be committed before an item of
/// `item_bytes` joins it: when it is not empty and is full, or the item
/// would take it past the byte limit.
pub open spec fn spec_flush_before(items: usize, bytes: usize, item_bytes: usize) -> bool {
    items > 0 && (items >= COPY_BATCH_ITEMS || sat_add(bytes, item_bytes) > COPY_BATCH_BYTES)
}

/// The batch of a keyspace copy being filled.
#[derive(Clone, Copy, Debug)]
pub struct CopyBatch {
    /// Items in the batch.
    pub items: usize,
    /// Their key and value bytes, saturating.
    pub bytes: usize,
}

impl CopyBatch {
    /// Within bounds: at most the item limit, and within the byte limit
    /// unless the batch is one item.
    pub open spec fn bounded(&self) -> bool {
        &&& self.items <= COPY_BATCH_ITEMS
        &&& (self.items <= 1 || self.bytes <= COPY_BATCH_BYTES)
    }

    /// An empty batch.
    pub fn new() -> (r: Self)
        ensures
            r.items == 0,
            r.bytes == 0,
    {
        CopyBatch { items: 0, bytes: 0 }
    }

    /// The size an item counts for: key and value bytes, saturating.
    pub fn item_size(key_len: usize, value_len: usize) -> (r: usize)
        ensures
            r == sat_add(key_len, value_len),
    {
        key_len.saturating_add(value_len)
    }

    /// Adds an item of `item_bytes`; true when the batch so far had to be
    /// committed first (the item then starts a new batch). Batches stay
    /// bounded.
    pub fn add(&mut self, item_bytes: usize) -> (flush: bool)
        requires
            old(self).bounded(),
        ensures
            flush == spec_flush_before(old(self).items, old(self).bytes, item_bytes),
            flush ==> final(self).items == 1 && final(self).bytes == item_bytes,
            !flush ==> final(self).items == old(self).items + 1 && final(self).bytes == sat_add(
                old(self).bytes,
                item_bytes,
            ),
            final(self).bounded(),
    {
        let flush = self.items > 0 && (self.items >= COPY_BATCH_ITEMS || self.bytes.saturating_add(item_bytes)
            > COPY_BATCH_BYTES);
        if flush {
            self.items = 0;
            self.bytes = 0;
        }
        self.items = self.items + 1;
        self.bytes = self.bytes.saturating_add(item_bytes);
        flush
    }
}

/// Marks the keyspaces of index builds.
pub const INDEX_BUILD_MARKER: &'static str = "__build_";

/// `needle` occurs in `s` at `i`.
pub open spec fn occurs_at(s: Seq<char>, needle: Seq<char>, i: int) -> bool {
    0 <= i && i + needle.len() <= s.len() && s.subrange(i, i + needle.len()) == needle
}

/// `needle` occurs in `s`.
pub open spec fn contains_text(s: Seq<char>, needle: Seq<char>) -> bool {
    exists|i: int| occurs_at(s, needle, i)
}

/// The name under which an index build is kept.
pub open spec fn spec_build_name(build_id: Seq<char>) -> Seq<char> {
    INDEX_BUILD_MARKER@ + build_id
}

/// The keyspace of an index of a collection: `idx_{collection}_{index}`.
pub open spec fn spec_index_keyspace_name(collection: Seq<char>, index: Seq<char>) -> Seq<char> {
    "idx_"@ + collection + "_"@ + index
}

/// Whether `needle` occurs in `s`.
pub fn text_contains(s: &str, needle: &str) -> (r: bool)
    ensures
        r == contains_text(s@, needle@),
{
    let n = s.unicode_len();
    let m = needle.unicode_len();
    if m > n {
        assert(!contains_text(s@, needle@));
        return false;
    }
    if m == 0 {
        assert(s@.subrange(0, 0) =~= needle@);
        assert(occurs_at(s@, needle@, 0));
        return true;
    }
    let mut i: usize = 0;
    while i <= n - m
        invariant
            n == s@.len(),
            m == needle@.len(),
            1 <= m <= n,
            i <= n - m + 1,
            forall|k: int| 0 <= k < i ==> !#[trigger] occurs_at(s@, needle@, k),
        decreases n - m + 1 - i,
    {
        let part = s.substring_char(i, i + m);
        if str_eq(part, needle) {
            assert(occurs_at(s@, needle@, i as int));
            return true;
        }
        assert(!occurs_at(s@, needle@, i as int));
        i = i + 1;
    }
    assert(!contains_text(s@, needle@)) by {
        if contains_text(s@, needle@) {
            let k = choose|k: int| occurs_at(s@, needle@, k);
            assert(k <= n - m);
        }
    }
    false
}

/// The name under which an index build is kept: the build marker, then the
/// build id.
pub fn build_name(build_id: &str) -> (r: String)
    ensures
        r@ == spec_build_name(build_id@),
{
    let mut s = String::from_str(INDEX_BUILD_MARKER);
    s.append(build_id);
    s
}

/// The keyspace of an index of a collection.
pub fn index_keyspace_name(collection: &str, index: &str) -> (r: String)
    ensures
        r@ == spec_index_keyspace_name(collection@, index@),
{
    let mut s = String::from_str("idx_");
    s.append(collection);
    s.append("_");
    s.append(index);
    s
}

/// Whether a keyspace name is that of an index build (and so may be
/// cleared as an orphan).
pub fn is_build_keyspace_name(name: &str) -> (r: bool)
    ensures
        r == contains_text(name@, INDEX_BUILD_MARKER@),
{
    text_contains(name, INDEX_BUILD_MARKER)
}

/// The keyspace of an index build is always recognised as one, whatever the
/// collection and build id: orphaned builds can be found by name.
pub proof fn law_build_keyspaces_are_recognised(collection: Seq<char>, build_id: Seq<char>)
    ensures
        contains_text(spec_index_keyspace_name(collection, spec_build_name(build_id)), INDEX_BUILD_MARKER@),
        contains_text(spec_index_keyspace_name(collection, spec_build_name(build_id) + "_unique"@), INDEX_BUILD_MARKER@),
{
    let m = INDEX_BUILD_MARKER@;
    let pre = "idx_"@ + collection + "_"@;
    let n1 = spec_index_keyspace_name(collection, spec_build_name(build_id));
    let n2 = spec_index_keyspace_name(collection, spec_build_name(build_id) + "_unique"@);
    let i = pre.len() as int;
    assert(n1 =~= pre + (m + build_id));
    assert(n1.subrange(i, i + m.len()) =~= m);
    assert(occurs_at(n1, m, i));
    assert(n2 =~= pre + ((m + build_id) + "_unique"@));
    assert(n2.subrange(i, i + m.len()) =~= m);
    assert(occurs_at(n2, m, i));
}

} // verus!
