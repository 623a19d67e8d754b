//! Building a B-tree index over a collection's stored documents: documents
//! are taken in chunks bounded by count and bytes, a chunk is split among
//! workers, the prepared keys are written in batches within the memory
//! budget, and a unique index refuses two documents with the same value.

use vstd::prelude::*;
use vstd::multiset::Multiset;
use crate::document::string_views;
use crate::config::StorageError;
use crate::external::{debug_strings, debug_text_of_strings};
use crate::keyspace_plan::sat_add;
use crate::hash_encoding::bytes_lt;
use crate::order::{lex_lt, lemma_lex_lt_irreflexive, lemma_lex_lt_total, lemma_lex_lt_transitive};

verus! {

/// The byte budget of one chunk of stored documents: half the memory
/// budget, at least one byte.
pub open spec fn spec_raw_budget(memory_budget: usize) -> usize {
    if memory_budget / 2 < 1 {
        1
    } else {
        memory_budget / 2
    }
}

/// Whether a chunk of `count` documents of `bytes` takes one more of
/// `doc_len` bytes: while below the chunk size, and, unless the chunk is
/// empty, while the bytes stay within the budget.
pub open spec fn spec_chunk_takes(count: usize, bytes: usize, doc_len: usize, chunk_size: usize, budget: usize) -> bool {
    count < chunk_size && (count == 0 || sat_add(bytes, doc_len) <= budget)
}

/// A chunk of stored documents being filled.
#[derive(Clone, Copy, Debug)]
pub struct DocChunk {
    /// Documents taken.
    pub count: usize,
    /// Their serialized bytes, saturating.
    pub bytes: usize,
    /// Most documents in a chunk.
    pub chunk_size: usize,
    /// Byte budget of a chunk.
    pub budget: usize,
}

impl DocChunk {
    /// Within bounds: at most the chunk size, and within the byte budget
    /// unless the chunk is one document.
    pub open spec fn bounded(&self) -> bool {
        &&& self.count <= self.chunk_size
        &&& (self.count <= 1 || self.bytes <= self.budget)
    }

    /// An empty chunk of at most `chunk_size` documents within half of
    /// `memory_budget` bytes.
    pub fn new(chunk_size: usize, memory_budget: usize) -> (r: Self)
        ensures
            r.count == 0,
            r.bytes == 0,
            r.chunk_size == chunk_size,
            r.budget == spec_raw_budget(memory_budget),
    {
        let half = memory_budget / 2;
        let budget = if half < 1 {
            1
        } else {
            half
        };
        DocChunk { count: 0, bytes: 0, chunk_size, budget }
    }

    /// Whether the chunk can take another document (is below its size).
    pub fn has_room(&self) -> (r: bool)
        ensures
            r == (self.count < self.chunk_size),
    {
        self.count < self.chunk_size
    }

    /// Offers a document of `doc_len` bytes: true when the chunk takes it;
    /// false when the chunk is closed and the document waits for the next.
    pub fn offer(&mut self, doc_len: usize) -> (taken: bool)
        requires
            old(self).bounded(),
        ensures
            taken == spec_chunk_takes(old(self).count, old(self).bytes, doc_len, old(self).chunk_size, old(self).budget),
            taken ==> final(self).count == old(self).count + 1 && final(self).bytes == sat_add(old(self).bytes, doc_len),
            !taken ==> final(self).count == old(self).count && final(self).bytes == old(self).bytes,
            final(self).chunk_size == old(self).chunk_size,
            final(self).budget == old(self).budget,
            final(self).bounded(),
    {
        if self.count >= self.chunk_size {
            return false;
        }
        if self.count > 0 && self.bytes.saturating_add(doc_len) > self.budget {
            return false;
        }
        self.count = self.count + 1;
        self.bytes = self.bytes.saturating_add(doc_len);
        true
    }
}

/// How a chunk of `n` documents is shared out: among at most `workers`
/// workers (no more than there are documents), each taking the next
/// `per_worker` documents (the last one the rest).
pub fn worker_layout(n: usize, workers: usize) -> (r: (usize, usize))
    requires
        n > 0,
        workers > 0,
    ensures
        r.0 == if workers < n { workers } else { n },
        r.1 == (n + r.0 - 1) / r.0 as int,
        r.1 >= 1,
        (n + r.1 - 1) / r.1 as int <= r.0,
{
    let wc = if workers < n {
        workers
    } else {
        n
    };
    let q = n / wc;
    let rem = n % wc;
    assert(rem != 0 ==> q < n) by (nonlinear_arith)
        requires
            wc > 0,
            n > 0,
            q == n / wc,
            rem == n % wc,
    ;
    let per = if rem == 0 {
        q
    } else {
        q + 1
    };
    proof {
        lemma_ceil_div(n as int, wc as int);
        assert(per == (n + wc - 1) / wc as int);
        lemma_ceil_parts(n as int, wc as int, per as int);
    }
    (wc, per)
}

proof fn lemma_ceil_div(n: int, d: int)
    requires
        n >= 0,
        d > 0,
    ensures
        n / d + (if n % d == 0 { 0int } else { 1int }) == (n + d - 1) / d,
{
    assert(n == d * (n / d) + n % d) by (nonlinear_arith)
        requires
            d > 0,
    ;
    assert(0 <= n % d < d) by (nonlinear_arith)
        requires
            d > 0,
    ;
    let q = n / d;
    let r = n % d;
    if r == 0 {
        assert(n + d - 1 == d * q + (d - 1));
        assert((d * q + (d - 1)) / d == q) by (nonlinear_arith)
            requires
                d > 0,
                0 <= d - 1 < d,
        ;
    } else {
        assert(n + d - 1 == d * (q + 1) + (r - 1)) by (nonlinear_arith)
            requires
                n == d * q + r,
        ;
        assert((d * (q + 1) + (r - 1)) / d == q + 1) by (nonlinear_arith)
            requires
                d > 0,
                0 <= r - 1 < d,
        ;
    }
}

/// Sharing `n` items in pieces of `per = ceil(n / w)` needs at most `w`
/// pieces, and a piece holds at least one item.
proof fn lemma_ceil_parts(n: int, w: int, per: int)
    requires
        n > 0,
        w > 0,
        w <= n,
        per == (n + w - 1) / w,
    ensures
        per >= 1,
        (n + per - 1) / per <= w,
{
    assert(per >= 1) by (nonlinear_arith)
        requires
            n > 0,
            w > 0,
            w <= n,
            per == (n + w - 1) / w,
    ;
    assert(per * w >= n) by (nonlinear_arith)
        requires
            w > 0,
            per == (n + w - 1) / w,
    ;
    assert((n + per - 1) / per <= w) by (nonlinear_arith)
        requires
            per >= 1,
            per * w >= n,
            n > 0,
    ;
}

/// The bytes an entry of the build writes: its index key, and for a unique
/// index its lock key (16 bytes) and document key.
pub open spec fn spec_entry_size(index_key_len: Option<usize>, doc_key_len: Option<usize>) -> int {
    (match index_key_len {
        Some(k) => k as int,
        None => 0,
    }) + (match doc_key_len {
        Some(d) => 16 + d,
        None => 0,
    })
}

/// The bytes an entry of the build writes.
pub fn entry_size(index_key_len: Option<usize>, doc_key_len: Option<usize>) -> (r: usize)
    requires
        spec_entry_size(index_key_len, doc_key_len) <= usize::MAX,
    ensures
        r == spec_entry_size(index_key_len, doc_key_len),
{
    let k = match index_key_len {
        Some(k) => k,
        None => 0,
    };
    let u = match doc_key_len {
        Some(d) => 16 + d,
        None => 0,
    };
    k + u
}

/// Saturating sum of sizes.
pub open spec fn sat_sum(sizes: Seq<usize>) -> usize
    decreases sizes.len(),
{
    if sizes.len() == 0 {
        0
    } else {
        sat_add(sat_sum(sizes.drop_last()), sizes.last())
    }
}

/// Where the write batch that starts at `start` ends: it takes entries
/// while their bytes stay within the budget, and always at least one.
pub fn batch_end(sizes: &[usize], start: usize, budget: usize) -> (end: usize)
    requires
        start < sizes@.len(),
    ensures
        start < end <= sizes@.len(),
        end == start + 1 || sat_sum(sizes@.subrange(start as int, end as int)) <= budget,
        end == sizes@.len() || sat_add(sat_sum(sizes@.subrange(start as int, end as int)), sizes@[end as int])
            > budget,
{
    let mut end = start;
    let mut bytes: usize = 0;
    assert(sizes@.subrange(start as int, start as int) =~= Seq::<usize>::empty());
    while end < sizes.len()
        invariant
            start <= end <= sizes@.len(),
            bytes == sat_sum(sizes@.subrange(start as int, end as int)),
            end == start || end == start + 1 || bytes <= budget,
        decreases sizes@.len() - end,
    {
        let b = bytes.saturating_add(sizes[end]);
        if end > start && b > budget {
            return end;
        }
        assert(sizes@.subrange(start as int, end + 1).drop_last() =~= sizes@.subrange(start as int, end as int));
        bytes = b;
        end = end + 1;
    }
    end
}

/// Lock key and document key of two entries of a unique index conflict:
/// the same lock key for different documents.
pub open spec fn locks_conflict(a: (Seq<u8>, Seq<u8>), b: (Seq<u8>, Seq<u8>)) -> bool {
    a.0 == b.0 && a.1 != b.1
}

/// Some two neighbouring entries conflict.
pub open spec fn neighbours_conflict(locks: Seq<(Seq<u8>, Seq<u8>)>) -> bool {
    exists|i: int| 0 <= i < locks.len() - 1 && #[trigger] locks_conflict(locks[i], locks[i + 1])
}

/// Some two entries conflict.
pub open spec fn any_conflict(locks: Seq<(Seq<u8>, Seq<u8>)>) -> bool {
    exists|i: int, j: int| 0 <= i < j < locks.len() && #[trigger] locks_conflict(locks[i], locks[j])
}

/// The entries are in lock key order.
pub open spec fn sorted_by_lock(locks: Seq<(Seq<u8>, Seq<u8>)>) -> bool {
    forall|i: int, j: int| 0 <= i < j < locks.len() ==> !lex_lt(#[trigger] locks[j].0, #[trigger] locks[i].0)
}

pub open spec fn lock_views(locks: Seq<([u8; 16], Vec<u8>)>) -> Seq<(Seq<u8>, Seq<u8>)> {
    locks.map_values(|l: ([u8; 16], Vec<u8>)| (l.0@, l.1@))
}

fn bytes_eq(a: &[u8], b: &[u8]) -> (r: bool)
    ensures
        r == (a@ == b@),
{
    if a.len() != b.len() {
        return false;
    }
    let mut i: usize = 0;
    while i < a.len()
        invariant
            i <= a@.len(),
            a@.len() == b@.len(),
            forall|j: int| 0 <= j < i ==> a@[j] == b@[j],
        decreases a@.len() - i,
    {
        if a[i] != b[i] {
            return false;
        }
        i = i + 1;
    }
    assert(a@ =~= b@);
    true
}

/// Whether two neighbouring entries (lock key, document key) conflict:
/// after the entries are sorted by lock key, any two documents of the same
/// value are neighbours.
pub fn has_conflicting_neighbours(locks: &[([u8; 16], Vec<u8>)]) -> (r: bool)
    ensures
        r == neighbours_conflict(lock_views(locks@)),
{
    let ghost lv = lock_views(locks@);
    if locks.len() < 2 {
        return false;
    }
    let n = locks.len();
    let mut i: usize = 0;
    while i < n - 1
        invariant
            n == locks@.len(),
            n >= 2,
            i <= n - 1,
            lv == lock_views(locks@),
            forall|k: int| 0 <= k < i ==> !#[trigger] locks_conflict(lv[k], lv[k + 1]),
        decreases locks@.len() - i,
    {
        let same_key = bytes_eq(locks[i].0.as_slice(), locks[i + 1].0.as_slice());
        let same_doc = bytes_eq(locks[i].1.as_slice(), locks[i + 1].1.as_slice());
        assert(lv[i as int] == (locks@[i as int].0@, locks@[i as int].1@));
        assert(lv[i + 1] == (locks@[i + 1].0@, locks@[i + 1].1@));
        if same_key && !same_doc {
            assert(locks_conflict(lv[i as int], lv[i + 1]));
            return true;
        }
        i = i + 1;
    }
    false
}

/// Among entries sorted by lock key, two documents with the same value are
/// found by looking at neighbours only: some two entries conflict exactly
/// when two neighbouring ones do.
pub proof fn law_sorted_conflicts_are_neighbours(locks: Seq<(Seq<u8>, Seq<u8>)>)
    requires
        sorted_by_lock(locks),
    ensures
        any_conflict(locks) <==> neighbours_conflict(locks),
{
    if neighbours_conflict(locks) {
        let i = choose|i: int| 0 <= i < locks.len() - 1 && #[trigger] locks_conflict(locks[i], locks[i + 1]);
        assert(locks_conflict(locks[i], locks[i + 1]));
    }
    if any_conflict(locks) {
        let (i, j) = choose|i: int, j: int| 0 <= i < j < locks.len() && #[trigger] locks_conflict(locks[i], locks[j]);
        lemma_conflict_between(locks, i, j);
    }
}

/// Between two conflicting entries of a sorted sequence, some neighbours
/// conflict.
proof fn lemma_conflict_between(locks: Seq<(Seq<u8>, Seq<u8>)>, i: int, j: int)
    requires
        sorted_by_lock(locks),
        0 <= i < j < locks.len(),
        locks_conflict(locks[i], locks[j]),
    ensures
        neighbours_conflict(locks),
    decreases j - i,
{
    if locks_conflict(locks[i], locks[i + 1]) {
        assert(0 <= i < locks.len() - 1);
    } else {
        // The lock key of `i + 1` lies between equal keys, so it is the same.
        assert(!lex_lt(locks[i + 1].0, locks[i].0));
        if j > i + 1 {
            assert(!lex_lt(locks[j].0, locks[i + 1].0));
            if locks[i + 1].0 != locks[i].0 {
                lemma_lex_lt_total(locks[i + 1].0, locks[i].0);
            }
            assert(locks[i + 1].0 == locks[i].0);
            assert(locks[i + 1].1 == locks[i].1);
            lemma_conflict_between(locks, i + 1, j);
        }
    }
}

/// The lock of an entry is held by another document.
pub open spec fn held_by_other(entry: (Seq<u8>, Seq<u8>), holder: Option<Seq<u8>>) -> bool {
    holder matches Some(h) && h != entry.1
}

pub open spec fn holder_views(holders: Seq<Option<Vec<u8>>>) -> Seq<Option<Seq<u8>>> {
    holders.map_values(|h: Option<Vec<u8>>| match h {
        Some(v) => Some(v@),
        None => None,
    })
}

/// A unique index build of a chunk is refused when two neighbouring entries
/// (sorted by lock key) are two documents of the same value, or when a
/// lock is held by another document than the entry's (`holders[i]` is the
/// holder of entry `i`'s lock before the build).
pub open spec fn spec_unique_build_conflict(locks: Seq<(Seq<u8>, Seq<u8>)>, holders: Seq<Option<Seq<u8>>>) -> bool {
    ||| neighbours_conflict(locks)
    ||| exists|i: int| 0 <= i < locks.len() && i < holders.len() && #[trigger] held_by_other(locks[i], holders[i])
}

/// Whether a unique index build of a chunk is refused, given its entries
/// sorted by lock key and the current holder of each entry's lock. Over
/// sorted entries this is: some two documents share a value, or a value's
/// lock belongs to another document.
pub fn unique_build_conflict(sorted_locks: &[([u8; 16], Vec<u8>)], holders: &[Option<Vec<u8>>]) -> (r: bool)
    ensures
        r == spec_unique_build_conflict(lock_views(sorted_locks@), holder_views(holders@)),
        sorted_by_lock(lock_views(sorted_locks@)) ==> (r <==> (any_conflict(lock_views(sorted_locks@))
            || exists|i: int| 0 <= i < sorted_locks@.len() && i < holders@.len() && #[trigger] held_by_other(
            lock_views(sorted_locks@)[i],
            holder_views(holders@)[i],
        ))),
{
    let ghost lv = lock_views(sorted_locks@);
    let ghost hv = holder_views(holders@);
    proof {
        if sorted_by_lock(lv) {
            law_sorted_conflicts_are_neighbours(lv);
        }
    }
    if has_conflicting_neighbours(sorted_locks) {
        return true;
    }
    let n = if sorted_locks.len() < holders.len() {
        sorted_locks.len()
    } else {
        holders.len()
    };
    let mut i: usize = 0;
    while i < n
        invariant
            i <= n,
            n <= sorted_locks@.len(),
            n <= holders@.len(),
            n == sorted_locks@.len() || n == holders@.len(),
            lv == lock_views(sorted_locks@),
            hv == holder_views(holders@),
            forall|k: int| 0 <= k < i ==> !#[trigger] held_by_other(lv[k], hv[k]),
        decreases n - i,
    {
        assert(lv[i as int] == (sorted_locks@[i as int].0@, sorted_locks@[i as int].1@));
        match &holders[i] {
            Some(h) => {
                assert(hv[i as int] == Some(h@));
                if !bytes_eq(h.as_slice(), sorted_locks[i].1.as_slice()) {
                    assert(held_by_other(lv[i as int], hv[i as int]));
                    return true;
                }
            },
            None => {
                assert(hv[i as int] is None);
            },
        }
        i = i + 1;
    }
    false
}

/// The entries of a unique index build put in lock key order, as the build
/// checks them: the same entries, each as often as before.
pub fn sort_locks(locks: Vec<([u8; 16], Vec<u8>)>) -> (sorted: Vec<([u8; 16], Vec<u8>)>)
    ensures
        sorted_by_lock(lock_views(sorted@)),
        sorted@.to_multiset() == locks@.to_multiset(),
{
    let mut rest = locks;
    let mut sorted: Vec<([u8; 16], Vec<u8>)> = Vec::new();
    proof {
        broadcast use vstd::multiset::group_multiset_axioms;
        vstd::seq_lib::to_multiset_len(sorted@);
        vstd::multiset::lemma_multiset_empty_len(sorted@.to_multiset());
        assert(sorted@.to_multiset() =~= Multiset::empty());
    }
    while rest.len() > 0
        invariant
            sorted_by_lock(lock_views(sorted@)),
            sorted@.to_multiset().add(rest@.to_multiset()) == locks@.to_multiset(),
        decreases rest.len(),
    {
        let ghost before = rest@;
        let x = rest.pop().unwrap();
        proof {
            assert(before =~= rest@.push(x));
            vstd::seq_lib::to_multiset_build(rest@, x);
        }
        let mut p: usize = 0;
        while p < sorted.len() && !bytes_lt(x.0.as_slice(), sorted[p].0.as_slice())
            invariant
                p <= sorted@.len(),
                forall|q: int| 0 <= q < p ==> !lex_lt(x.0@, #[trigger] sorted@[q].0@),
            decreases sorted@.len() - p,
        {
            p = p + 1;
        }
        let ghost old_sorted = sorted@;
        sorted.insert(p, x);
        proof {
            broadcast use vstd::multiset::group_multiset_axioms;
            let lv = lock_views(sorted@);
            let ov = lock_views(old_sorted);
            assert(forall|q: int| 0 <= q < ov.len() ==> #[trigger] ov[q] == (old_sorted[q].0@, old_sorted[q].1@));
            assert(forall|q: int| 0 <= q < lv.len() ==> #[trigger] lv[q] == (sorted@[q].0@, sorted@[q].1@));
            assert(forall|q: int| 0 <= q < p ==> #[trigger] sorted@[q] == old_sorted[q]);
            assert(forall|q: int| p < q < sorted@.len() ==> #[trigger] sorted@[q] == old_sorted[q - 1]);
            assert(sorted@[p as int] == x);
            assert forall|i: int, j: int| 0 <= i < j < lv.len() implies !lex_lt(#[trigger] lv[j].0, #[trigger] lv[i].0) by {
                if j == p {
                    assert(lv[i].0 == old_sorted[i].0@);
                } else if i == p {
                    assert(lv[j].0 == old_sorted[j - 1].0@);
                    if p < old_sorted.len() {
                        assert(lex_lt(x.0@, old_sorted[p as int].0@));
                        if j - 1 > p {
                            assert(!lex_lt(ov[j - 1].0, ov[p as int].0));
                        }
                        if lex_lt(old_sorted[j - 1].0@, x.0@) {
                            lemma_lex_lt_transitive(old_sorted[j - 1].0@, x.0@, old_sorted[p as int].0@);
                            if j - 1 == p {
                                lemma_lex_lt_irreflexive(x.0@);
                                lemma_lex_lt_transitive(x.0@, old_sorted[p as int].0@, x.0@);
                            }
                        }
                    }
                } else {
                    let i0 = if i < p { i } else { i - 1 };
                    let j0 = if j < p { j } else { j - 1 };
                    assert(lv[i].0 == ov[i0].0 && lv[j].0 == ov[j0].0);
                }
            }
            vstd::seq_lib::to_multiset_insert(old_sorted, p as int, x);
            assert(sorted@.to_multiset().add(rest@.to_multiset()) =~= locks@.to_multiset());
        }
    }
    proof {
        broadcast use vstd::multiset::group_multiset_axioms;
        vstd::seq_lib::to_multiset_len(rest@);
        vstd::multiset::lemma_multiset_empty_len(rest@.to_multiset());
        assert(sorted@.to_multiset() =~= locks@.to_multiset());
    }
    sorted
}

/// What a B-tree index build writes for one document: its index key, and
/// for a unique index its lock key and document key.
pub struct PreparedEntry {
    pub index_key: Option<Vec<u8>>,
    pub unique_lock: Option<([u8; 16], Vec<u8>)>,
}

pub open spec fn opt_bytes_view(k: Option<Vec<u8>>) -> Option<Seq<u8>> {
    match k {
        Some(v) => Some(v@),
        None => None,
    }
}

/// The order of optional index keys: no key first, then keys bytewise.
pub open spec fn index_key_lt(a: Option<Seq<u8>>, b: Option<Seq<u8>>) -> bool {
    match (a, b) {
        (None, Some(_)) => true,
        (Some(x), Some(y)) => lex_lt(x, y),
        _ => false,
    }
}

/// The entries are in index key order.
pub open spec fn sorted_by_index_key(es: Seq<PreparedEntry>) -> bool {
    forall|i: int, j: int|
        0 <= i < j < es.len() ==> !index_key_lt(
            opt_bytes_view(#[trigger] es[j].index_key),
            opt_bytes_view(#[trigger] es[i].index_key),
        )
}

proof fn lemma_index_key_lt_transitive(a: Option<Seq<u8>>, b: Option<Seq<u8>>, c: Option<Seq<u8>>)
    requires
        index_key_lt(a, b),
        index_key_lt(b, c),
    ensures
        index_key_lt(a, c),
{
    if a is Some {
        lemma_lex_lt_transitive(a.unwrap(), b.unwrap(), c.unwrap());
    }
}

proof fn lemma_index_key_lt_irreflexive(a: Option<Seq<u8>>)
    ensures
        !index_key_lt(a, a),
{
    if a is Some {
        lemma_lex_lt_irreflexive(a.unwrap());
    }
}

fn index_key_less(a: &Option<Vec<u8>>, b: &Option<Vec<u8>>) -> (r: bool)
    ensures
        r == index_key_lt(opt_bytes_view(*a), opt_bytes_view(*b)),
{
    match (a, b) {
        (None, Some(_)) => true,
        (Some(x), Some(y)) => bytes_lt(x.as_slice(), y.as_slice()),
        _ => false,
    }
}

/// The prepared entries of a chunk put in index key order, as the build
/// writes them: the same entries, each as often as before.
pub fn sort_prepared(entries: Vec<PreparedEntry>) -> (sorted: Vec<PreparedEntry>)
    ensures
        sorted_by_index_key(sorted@),
        sorted@.to_multiset() == entries@.to_multiset(),
{
    let mut rest = entries;
    let mut sorted: Vec<PreparedEntry> = Vec::new();
    proof {
        broadcast use vstd::multiset::group_multiset_axioms;
        vstd::seq_lib::to_multiset_len(sorted@);
        vstd::multiset::lemma_multiset_empty_len(sorted@.to_multiset());
        assert(sorted@.to_multiset() =~= Multiset::empty());
    }
    while rest.len() > 0
        invariant
            sorted_by_index_key(sorted@),
            sorted@.to_multiset().add(rest@.to_multiset()) == entries@.to_multiset(),
        decreases rest.len(),
    {
        let ghost before = rest@;
        let x = rest.pop().unwrap();
        proof {
            assert(before =~= rest@.push(x));
            vstd::seq_lib::to_multiset_build(rest@, x);
        }
        let mut p: usize = 0;
        while p < sorted.len() && !index_key_less(&x.index_key, &sorted[p].index_key)
            invariant
                p <= sorted@.len(),
                forall|q: int|
                    0 <= q < p ==> !index_key_lt(opt_bytes_view(x.index_key), opt_bytes_view(#[trigger] sorted@[q].index_key)),
            decreases sorted@.len() - p,
        {
            p = p + 1;
        }
        let ghost old_sorted = sorted@;
        sorted.insert(p, x);
        proof {
            broadcast use vstd::multiset::group_multiset_axioms;
            let kx = opt_bytes_view(x.index_key);
            assert(forall|q: int| 0 <= q < p ==> #[trigger] sorted@[q] == old_sorted[q]);
            assert(forall|q: int| p < q < sorted@.len() ==> #[trigger] sorted@[q] == old_sorted[q - 1]);
            assert(sorted@[p as int] == x);
            assert forall|i: int, j: int| 0 <= i < j < sorted@.len() implies !index_key_lt(
                opt_bytes_view(#[trigger] sorted@[j].index_key),
                opt_bytes_view(#[trigger] sorted@[i].index_key),
            ) by {
                if j == p {
                    assert(sorted@[i] == old_sorted[i]);
                } else if i == p {
                    let kj = opt_bytes_view(old_sorted[j - 1].index_key);
                    assert(sorted@[j] == old_sorted[j - 1]);
                    if p < old_sorted.len() {
                        let kp = opt_bytes_view(old_sorted[p as int].index_key);
                        assert(index_key_lt(kx, kp));
                        if j - 1 > p {
                            assert(!index_key_lt(kj, kp));
                        }
                        if index_key_lt(kj, kx) {
                            lemma_index_key_lt_transitive(kj, kx, kp);
                            if j - 1 == p {
                                lemma_index_key_lt_irreflexive(kx);
                                lemma_index_key_lt_transitive(kx, kp, kx);
                            }
                        }
                    }
                } else {
                    let i0 = if i < p { i } else { i - 1 };
                    let j0 = if j < p { j } else { j - 1 };
                    assert(sorted@[i] == old_sorted[i0] && sorted@[j] == old_sorted[j0]);
                }
            }
            vstd::seq_lib::to_multiset_insert(old_sorted, p as int, x);
            assert(sorted@.to_multiset().add(rest@.to_multiset()) =~= entries@.to_multiset());
        }
    }
    proof {
        broadcast use vstd::multiset::group_multiset_axioms;
        vstd::seq_lib::to_multiset_len(rest@);
        vstd::multiset::lemma_multiset_empty_len(rest@.to_multiset());
        assert(sorted@.to_multiset() =~= entries@.to_multiset());
    }
    sorted
}

/// The error of a unique index build that finds two documents with the
/// same value: `Duplicate value for unique index on ` and the index's field
/// names as `{:?}` writes them.
pub fn duplicate_value_error(fields: &[String]) -> (r: StorageError)
    ensures
        r matches StorageError::Conflict(m) && m@ == "Duplicate value for unique index on "@ + debug_text_of_strings(
            string_views(fields@),
        ),
{
    let mut m = String::from_str("Duplicate value for unique index on ");
    let d = debug_strings(fields);
    m.append(d.as_str());
    StorageError::Conflict(m)
}

} // verus!
