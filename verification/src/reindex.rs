//! Full-text index bookkeeping: the name an index over a set of fields gets,
//! and the state kept while an index is rebuilt from a snapshot beside the
//! live one (which documents concurrent writes touched, when tracking gives
//! up, and the statistics reported at the end).

use std::collections::HashMap;
use vstd::prelude::*;
use vstd::relations::{sorted_by, total_ordering};
use crate::config::StorageError;
use crate::document::{opt_str_view, string_views};
use crate::encoding::utf8;
use crate::external::{xxh3_key_hash, xxh3_str_hash};
use crate::order::{lex_lt, lemma_lex_lt_asymmetric, lemma_text_order_total, text_le, text_lt, text_order};

verus! {

broadcast use vstd::std_specs::hash::group_hash_axioms;

/// The names joined by underscores.
pub open spec fn join_underscores(names: Seq<Seq<char>>) -> Seq<char>
    decreases names.len(),
{
    if names.len() == 0 {
        seq![]
    } else if names.len() == 1 {
        names[0]
    } else {
        join_underscores(names.drop_last()) + seq!['_'] + names.last()
    }
}

/// The name of the full-text index over `fields`: the field names in
/// `str` order, joined by underscores, then `_fts`.
pub open spec fn spec_fts_index_name(fields: Seq<Seq<char>>) -> Seq<char> {
    join_underscores(fields.sort_by(text_order())) + seq!['_', 'f', 't', 's']
}

/// The index name depends on which fields are named, not on their order: a
/// field list and any rearrangement of it give the same name.
pub proof fn law_fts_index_name_ignores_field_order(a: Seq<Seq<char>>, b: Seq<Seq<char>>)
    requires
        a.to_multiset() == b.to_multiset(),
    ensures
        spec_fts_index_name(a) == spec_fts_index_name(b),
{
    lemma_text_order_total();
    a.lemma_sort_by_ensures(text_order());
    b.lemma_sort_by_ensures(text_order());
    vstd::seq_lib::lemma_sorted_unique(a.sort_by(text_order()), b.sort_by(text_order()), text_order());
}

/// Inserting `f` where everything before sorts no later and the next one no
/// earlier keeps a sorted sequence sorted.
proof fn lemma_insert_keeps_sorted(s: Seq<Seq<char>>, p: int, f: Seq<char>)
    requires
        total_ordering(text_order()),
        sorted_by(s, text_order()),
        0 <= p <= s.len(),
        forall|q: int| 0 <= q < p ==> text_le(#[trigger] s[q], f),
        p < s.len() ==> text_le(f, s[p]),
    ensures
        sorted_by(s.insert(p, f), text_order()),
{
    let r = text_order();
    let t = s.insert(p, f);
    assert forall|i: int, j: int| 0 <= i < j < t.len() implies #[trigger] r(t[i], t[j]) by {
        if i < p && j == p {
            assert(t[i] == s[i]);
        } else if i < p && j > p {
            assert(t[i] == s[i] && t[j] == s[j - 1]);
            assert(r(s[i], s[j - 1]));
        } else if i == p {
            assert(t[j] == s[j - 1]);
            if j - 1 > p {
                assert(r(s[p], s[j - 1]));
                assert(r(f, s[p]));
            }
        } else if j < p {
            assert(t[i] == s[i] && t[j] == s[j]);
            assert(r(s[i], s[j]));
        } else {
            assert(t[i] == s[i - 1] && t[j] == s[j - 1]);
            assert(r(s[i - 1], s[j - 1]));
        }
    }
}

/// The field names in `str` order.
fn sorted_field_names(fields: &[String]) -> (r: Vec<String>)
    ensures
        string_views(r@) == string_views(fields@).sort_by(text_order()),
{
    let ghost fv = string_views(fields@);
    proof {
        lemma_text_order_total();
    }
    let mut out: Vec<String> = Vec::new();
    proof {
        assert(string_views(out@) =~= fv.take(0));
    }
    let mut i: usize = 0;
    while i < fields.len()
        invariant
            i <= fields@.len(),
            fv == string_views(fields@),
            total_ordering(text_order()),
            string_views(out@).to_multiset() == fv.take(i as int).to_multiset(),
            sorted_by(string_views(out@), text_order()),
        decreases fields@.len() - i,
    {
        let f = fields[i].as_str();
        let ghost ov = string_views(out@);
        let mut p: usize = 0;
        while p < out.len() && !text_lt(f, out[p].as_str())
            invariant
                p <= out@.len(),
                ov == string_views(out@),
                f@ == fv[i as int],
                forall|q: int| 0 <= q < p ==> !lex_lt(utf8(f@), utf8(#[trigger] ov[q])),
            decreases out@.len() - p,
        {
            p = p + 1;
        }
        proof {
            if p < out@.len() {
                assert(lex_lt(utf8(f@), utf8(ov[p as int])));
                lemma_lex_lt_asymmetric(utf8(f@), utf8(ov[p as int]));
            }
            lemma_insert_keeps_sorted(ov, p as int, f@);
        }
        out.insert(p, fields[i].clone());
        proof {
            assert(string_views(out@) =~= ov.insert(p as int, f@));
            assert(fv.take(i + 1) =~= fv.take(i as int).push(fv[i as int]));
            vstd::seq_lib::to_multiset_insert(ov, p as int, f@);
            vstd::seq_lib::to_multiset_build(fv.take(i as int), fv[i as int]);
        }
        i = i + 1;
    }
    proof {
        assert(fv.take(fields@.len() as int) =~= fv);
        fv.lemma_sort_by_ensures(text_order());
        vstd::seq_lib::lemma_sorted_unique(string_views(out@), fv.sort_by(text_order()), text_order());
    }
    out
}

/// The name of the full-text index over `fields`: the field names in `str`
/// order, joined by underscores, then `_fts`.
pub fn fts_index_name(fields: &[String]) -> (r: String)
    ensures
        r@ == spec_fts_index_name(string_views(fields@)),
{
    let names = sorted_field_names(fields);
    let ghost nv = string_views(names@);
    let mut s = String::new();
    let mut i: usize = 0;
    proof {
        reveal_strlit("_");
        reveal_strlit("_fts");
    }
    while i < names.len()
        invariant
            i <= names@.len(),
            nv == string_views(names@),
            s@ == join_underscores(nv.take(i as int)),
            "_"@ == seq!['_'],
        decreases names@.len() - i,
    {
        assert(nv.take(i + 1).drop_last() =~= nv.take(i as int));
        assert(nv.take(i + 1).last() == names@[i as int]@);
        if i > 0 {
            s.append("_");
        }
        s.append(names[i].as_str());
        proof {
            if i == 0 {
                assert(nv.take(1) =~= seq![names@[0]@]);
            }
        }
        assert(s@ =~= join_underscores(nv.take(i + 1)));
        i = i + 1;
    }
    assert(nv.take(names@.len() as int) =~= nv);
    s.append("_fts");
    assert("_fts"@ =~= seq!['_', 'f', 't', 's']);
    s
}

/// Documents touched by writes during a rebuild are tracked up to this many;
/// a write that finds the tracking full gives the rebuild up.
pub const MAX_CONCURRENT_MODIFICATIONS: usize = 100000;

/// What a rebuild reports when it completes.
#[derive(Clone, Copy, Debug)]
pub struct ReindexStats {
    /// Documents of the snapshot written to the new index.
    pub docs_indexed: usize,
    /// Documents of the snapshot left out because a write had touched them.
    pub docs_skipped: usize,
    /// Distinct documents touched by writes during the rebuild.
    pub concurrent_modifications: usize,
}

impl Default for ReindexStats {
    fn default() -> (r: Self)
        ensures
            r.docs_indexed == 0,
            r.docs_skipped == 0,
            r.concurrent_modifications == 0,
    {
        ReindexStats { docs_indexed: 0, docs_skipped: 0, concurrent_modifications: 0 }
    }
}

/// The indexes a write during a rebuild goes to.
#[derive(Clone, Copy, PartialEq, Eq, Structural, Debug)]
pub enum WriteTargets {
    /// The live index only: tracking has given up, the new index is lost.
    ActiveOnly,
    /// The live index and the one being built.
    ActiveAndShadow,
}

/// What the rebuild does with a document of its snapshot.
#[derive(Clone, Copy, PartialEq, Eq, Structural, Debug)]
pub enum SnapshotStep {
    /// A write touched the document during the rebuild and already put its
    /// newer state in the new index: leave it.
    Skip,
    /// Write the document to the new index (delete, then add).
    Index,
}

/// The state of a rebuild: documents touched by writes, in the order first
/// touched, whether tracking gave up, and the counters.
pub struct ReindexModel {
    pub touched: Seq<Seq<char>>,
    pub overflow: bool,
    pub docs_indexed: nat,
    pub docs_skipped: nat,
}

/// The touched documents with `id` added, if it is not there yet.
pub open spec fn spec_touch(touched: Seq<Seq<char>>, id: Seq<char>) -> Seq<Seq<char>> {
    if touched.contains(id) {
        touched
    } else {
        touched.push(id)
    }
}

/// Tracks one document of an update: gives the touched documents after it
/// and whether tracking was full.
pub open spec fn spec_touch_update(touched: Seq<Seq<char>>, id: Option<Seq<char>>) -> (Seq<Seq<char>>, bool) {
    match id {
        None => (touched, false),
        Some(id) => if touched.len() >= MAX_CONCURRENT_MODIFICATIONS {
            (touched, true)
        } else {
            (spec_touch(touched, id), false)
        },
    }
}

/// A new document written during the rebuild: it goes to both indexes and
/// is tracked, unless tracking has given up or is full (then it gives up).
pub open spec fn spec_after_write(m: ReindexModel, id: Seq<char>) -> (ReindexModel, WriteTargets) {
    if m.overflow {
        (m, WriteTargets::ActiveOnly)
    } else if m.touched.len() >= MAX_CONCURRENT_MODIFICATIONS {
        (ReindexModel { overflow: true, ..m }, WriteTargets::ActiveOnly)
    } else {
        (ReindexModel { touched: spec_touch(m.touched, id), ..m }, WriteTargets::ActiveAndShadow)
    }
}

/// An update or delete during the rebuild (old and new document ids, either
/// absent): both are tracked in turn; if tracking has given up, or is full
/// for either, it gives up and the write goes to the live index only.
pub open spec fn spec_after_update(m: ReindexModel, old_id: Option<Seq<char>>, new_id: Option<Seq<char>>) -> (ReindexModel, WriteTargets) {
    if m.overflow {
        (m, WriteTargets::ActiveOnly)
    } else {
        let (t1, full1) = spec_touch_update(m.touched, old_id);
        let (t2, full2) = spec_touch_update(t1, new_id);
        let full = full1 || full2;
        (
            ReindexModel { touched: t2, overflow: full, ..m },
            if full {
                WriteTargets::ActiveOnly
            } else {
                WriteTargets::ActiveAndShadow
            },
        )
    }
}

/// A document of the snapshot: refused once tracking has given up; left
/// (and counted as skipped) if a write touched it; else to be indexed.
pub open spec fn spec_snapshot_step(m: ReindexModel, id: Seq<char>) -> Option<(ReindexModel, SnapshotStep)> {
    if m.overflow {
        None
    } else if m.touched.contains(id) {
        Some((ReindexModel { docs_skipped: m.docs_skipped + 1, ..m }, SnapshotStep::Skip))
    } else {
        Some((m, SnapshotStep::Index))
    }
}

/// The statistics a completed rebuild reports; none once tracking gave up.
pub open spec fn spec_finish(m: ReindexModel) -> Option<(nat, nat, nat)> {
    if m.overflow {
        None
    } else {
        Some((m.docs_indexed, m.docs_skipped, m.touched.len()))
    }
}

/// The touched documents are distinct and never more than the limit.
pub open spec fn reindex_model_wf(m: ReindexModel) -> bool {
    &&& m.touched.no_duplicates()
    &&& m.touched.len() <= MAX_CONCURRENT_MODIFICATIONS
}

/// The message of a rebuild that tracking gave up.
pub open spec fn overflow_message() -> Seq<char> {
    "REINDEX aborted: too many concurrent modifications"@
}

/// The state kept while a full-text index is rebuilt beside the live one.
/// The touched documents are kept in buckets keyed by the hash of their id.
pub struct ReindexTracker {
    buckets: HashMap<u64, Vec<String>>,
    touched: Ghost<Seq<Seq<char>>>,
    count: usize,
    overflow: bool,
    stats: ReindexStats,
}

impl View for ReindexTracker {
    type V = ReindexModel;

    closed spec fn view(&self) -> ReindexModel {
        ReindexModel {
            touched: self.touched@,
            overflow: self.overflow,
            docs_indexed: self.stats.docs_indexed as nat,
            docs_skipped: self.stats.docs_skipped as nat,
        }
    }
}

impl ReindexTracker {
    /// The touched documents are distinct and within the limit, the count
    /// is their number, every bucket entry is a touched document under the
    /// hash of its id, and every touched document is in its bucket.
    pub closed spec fn wf(&self) -> bool {
        &&& reindex_model_wf(self@)
        &&& self.count == self.touched@.len()
        &&& forall|k: u64, j: int|
            #![trigger self.buckets@[k]@[j]]
            self.buckets@.contains_key(k) && 0 <= j < self.buckets@[k]@.len() ==> xxh3_key_hash(
                self.buckets@[k]@[j]@,
            ) == k && self.touched@.contains(self.buckets@[k]@[j]@)
        &&& forall|i: int|
            0 <= i < self.touched@.len() ==> self.buckets@.contains_key(
                xxh3_key_hash(#[trigger] self.touched@[i]),
            ) && string_views(self.buckets@[xxh3_key_hash(self.touched@[i])]@).contains(
                self.touched@[i],
            )
    }

    /// A rebuild just started: nothing touched, nothing counted.
    pub fn new() -> (r: Self)
        ensures
            r.wf(),
            r@.touched == Seq::<Seq<char>>::empty(),
            !r@.overflow,
            r@.docs_indexed == 0,
            r@.docs_skipped == 0,
    {
        ReindexTracker {
            buckets: HashMap::new(),
            touched: Ghost(Seq::empty()),
            count: 0,
            overflow: false,
            stats: ReindexStats::default(),
        }
    }

    /// Whether tracking has given up.
    pub fn is_overflowed(&self) -> (r: bool)
        ensures
            r == self@.overflow,
    {
        self.overflow
    }

    /// The counters so far, with the number of touched documents.
    pub fn stats(&self) -> (r: ReindexStats)
        requires
            self.wf(),
        ensures
            r.docs_indexed == self@.docs_indexed,
            r.docs_skipped == self@.docs_skipped,
            r.concurrent_modifications == self@.touched.len(),
    {
        ReindexStats {
            docs_indexed: self.stats.docs_indexed,
            docs_skipped: self.stats.docs_skipped,
            concurrent_modifications: self.count,
        }
    }

    /// Whether a write touched the document.
    fn is_touched(&self, id: &str) -> (r: bool)
        requires
            self.wf(),
        ensures
            r == self@.touched.contains(id@),
    {
        let h = xxh3_str_hash(id);
        match self.buckets.get(&h) {
            None => {
                assert(!self@.touched.contains(id@)) by {
                    if self@.touched.contains(id@) {
                        let i = choose|i: int| 0 <= i < self.touched@.len() && self.touched@[i] == id@;
                        assert(self.buckets@.contains_key(xxh3_key_hash(self.touched@[i])));
                    }
                }
                false
            },
            Some(b) => {
                assert(self.buckets@.contains_key(h) && self.buckets@[h] == *b);
                let mut j: usize = 0;
                while j < b.len()
                    invariant
                        j <= b@.len(),
                        self.wf(),
                        self.buckets@.contains_key(h),
                        self.buckets@[h] == *b,
                        forall|q: int| 0 <= q < j ==> #[trigger] b@[q]@ != id@,
                    decreases b@.len() - j,
                {
                    if crate::document::str_eq(b[j].as_str(), id) {
                        assert(self.buckets@[h]@[j as int]@ == id@);
                        return true;
                    }
                    j = j + 1;
                }
                assert(!self@.touched.contains(id@)) by {
                    if self@.touched.contains(id@) {
                        let i = choose|i: int| 0 <= i < self.touched@.len() && self.touched@[i] == id@;
                        assert(string_views(self.buckets@[h]@).contains(id@));
                        let q = choose|q: int| 0 <= q < b@.len() && string_views(b@)[q] == id@;
                        assert(b@[q]@ == id@);
                    }
                }
                false
            },
        }
    }

    /// Adds a document that is not touched yet, below the limit.
    fn add_touched(&mut self, id: &str)
        requires
            old(self).wf(),
            !old(self)@.touched.contains(id@),
            old(self)@.touched.len() < MAX_CONCURRENT_MODIFICATIONS,
        ensures
            final(self).wf(),
            final(self)@ == (ReindexModel { touched: old(self)@.touched.push(id@), ..old(self)@ }),
    {
        let ghost t0 = self.touched@;
        let ghost m0 = self.buckets@;
        let h = xxh3_str_hash(id);
        let mut b = match self.buckets.remove(&h) {
            Some(b) => b,
            None => Vec::new(),
        };
        let ghost b0 = b@;
        assert(m0.contains_key(h) ==> b0 == m0[h]@);
        assert(!m0.contains_key(h) ==> b0.len() == 0);
        let sid = String::from_str(id);
        let ghost sv = sid;
        b.push(sid);
        self.buckets.insert(h, b);
        self.touched = Ghost(t0.push(id@));
        self.count = self.count + 1;
        proof {
            let t1 = t0.push(id@);
            let m1 = self.buckets@;
            assert(m1 == m0.insert(h, m1[h]));
            assert(m1[h]@ == b0.push(sv));
            assert forall|a: int, c: int| 0 <= a < c < t1.len() implies t1[a] != t1[c] by {
                if c == t0.len() {
                    assert(t0.contains(t0[a]));
                }
            }
            assert forall|k: u64, j: int|
                #![trigger m1[k]@[j]]
                m1.contains_key(k) && 0 <= j < m1[k]@.len() implies xxh3_key_hash(m1[k]@[j]@) == k
                && t1.contains(m1[k]@[j]@) by {
                if k == h {
                    if j < b0.len() {
                        assert(m1[k]@[j] == m0[h]@[j]);
                        let i = choose|i: int| 0 <= i < t0.len() && t0[i] == m0[h]@[j]@;
                        assert(t1[i] == t0[i]);
                    } else {
                        assert(m1[k]@[j]@ == id@);
                        assert(t1[t0.len() as int] == id@);
                    }
                } else {
                    assert(m1[k] == m0[k]);
                    let i = choose|i: int| 0 <= i < t0.len() && t0[i] == m0[k]@[j]@;
                    assert(t1[i] == t0[i]);
                }
            }
            assert forall|i: int| 0 <= i < t1.len() implies m1.contains_key(xxh3_key_hash(#[trigger] t1[i]))
                && string_views(m1[xxh3_key_hash(t1[i])]@).contains(t1[i]) by {
                let k = xxh3_key_hash(t1[i]);
                if i == t0.len() {
                    assert(string_views(m1[h]@)[b0.len() as int] == id@);
                } else {
                    assert(t1[i] == t0[i]);
                    if k == h {
                        let q = choose|q: int| 0 <= q < m0[h]@.len() && string_views(m0[h]@)[q] == t0[i];
                        assert(string_views(m1[h]@)[q] == t0[i]);
                    } else {
                        assert(m1[k] == m0[k]);
                    }
                }
            }
        }
    }

    /// Tracks a new document written during the rebuild; says which indexes
    /// the write goes to.
    pub fn track_write(&mut self, id: &str) -> (r: WriteTargets)
        requires
            old(self).wf(),
        ensures
            final(self).wf(),
            (final(self)@, r) == spec_after_write(old(self)@, id@),
    {
        if self.overflow {
            return WriteTargets::ActiveOnly;
        }
        if self.count >= MAX_CONCURRENT_MODIFICATIONS {
            self.overflow = true;
            return WriteTargets::ActiveOnly;
        }
        if !self.is_touched(id) {
            self.add_touched(id);
        }
        WriteTargets::ActiveAndShadow
    }

    /// Tracks one document of an update; true when tracking was full.
    fn touch_for_update(&mut self, id: Option<&str>) -> (full: bool)
        requires
            old(self).wf(),
        ensures
            final(self).wf(),
            (final(self)@.touched, full) == spec_touch_update(old(self)@.touched, opt_str_view(id)),
            final(self)@.overflow == old(self)@.overflow,
            final(self)@.docs_indexed == old(self)@.docs_indexed,
            final(self)@.docs_skipped == old(self)@.docs_skipped,
    {
        match id {
            None => false,
            Some(id) => {
                if self.count >= MAX_CONCURRENT_MODIFICATIONS {
                    true
                } else {
                    if !self.is_touched(id) {
                        self.add_touched(id);
                    }
                    false
                }
            },
        }
    }

    /// Tracks an update or delete during the rebuild (the ids of the old and
    /// the new document, either absent); says which indexes it goes to.
    pub fn track_update(&mut self, old_id: Option<&str>, new_id: Option<&str>) -> (r: WriteTargets)
        requires
            old(self).wf(),
        ensures
            final(self).wf(),
            (final(self)@, r) == spec_after_update(old(self)@, opt_str_view(old_id), opt_str_view(new_id)),
    {
        if self.overflow {
            return WriteTargets::ActiveOnly;
        }
        let full_old = self.touch_for_update(old_id);
        let full_new = self.touch_for_update(new_id);
        if full_old || full_new {
            self.overflow = true;
            WriteTargets::ActiveOnly
        } else {
            WriteTargets::ActiveAndShadow
        }
    }

    /// Decides on a document of the snapshot. Refused with an index error
    /// once tracking has given up.
    pub fn snapshot_step(&mut self, id: &str) -> (r: Result<SnapshotStep, StorageError>)
        requires
            old(self).wf(),
            old(self)@.docs_skipped < usize::MAX,
        ensures
            final(self).wf(),
            match spec_snapshot_step(old(self)@, id@) {
                None => final(self)@ == old(self)@ && (r matches Err(StorageError::Index(m)) && m@
                    == overflow_message()),
                Some((m, step)) => final(self)@ == m && r == Ok::<SnapshotStep, StorageError>(step),
            },
    {
        if self.overflow {
            return Err(StorageError::Index(String::from_str("REINDEX aborted: too many concurrent modifications")));
        }
        if self.is_touched(id) {
            self.stats.docs_skipped = self.stats.docs_skipped + 1;
            Ok(SnapshotStep::Skip)
        } else {
            Ok(SnapshotStep::Index)
        }
    }

    /// Counts a document of the snapshot written to the new index.
    pub fn record_indexed(&mut self)
        requires
            old(self).wf(),
            old(self)@.docs_indexed < usize::MAX,
        ensures
            final(self).wf(),
            final(self)@ == (ReindexModel { docs_indexed: old(self)@.docs_indexed + 1, ..old(self)@ }),
    {
        self.stats.docs_indexed = self.stats.docs_indexed + 1;
    }

    /// The statistics of the completed rebuild; an index error when tracking
    /// gave up.
    pub fn finish(&self) -> (r: Result<ReindexStats, StorageError>)
        requires
            self.wf(),
        ensures
            match spec_finish(self@) {
                None => r matches Err(StorageError::Index(m)) && m@ == overflow_message(),
                Some((indexed, skipped, touched)) => r matches Ok(s) && s.docs_indexed == indexed
                    && s.docs_skipped == skipped && s.concurrent_modifications == touched,
            },
    {
        if self.overflow {
            return Err(StorageError::Index(String::from_str("REINDEX aborted: too many concurrent modifications")));
        }
        Ok(self.stats())
    }
}

/// What a change of a document does to a text index: the id whose entry
/// is deleted (the old document's, or, for a new document, its own, so
/// that replaying a change is harmless) and whether the new document is
/// then indexed.
pub open spec fn spec_text_update(old_id: Option<Seq<char>>, new_id: Option<Seq<char>>) -> (Option<Seq<char>>, bool) {
    (
        match old_id {
            Some(o) => Some(o),
            None => new_id,
        },
        new_id is Some,
    )
}

/// The steps of a document change in a text index.
pub fn plan_text_update(old_id: Option<&str>, new_id: Option<&str>) -> (r: (Option<String>, bool))
    ensures
        (opt_string_view(r.0), r.1) == spec_text_update(opt_str_view(old_id), opt_str_view(new_id)),
{
    let delete = match old_id {
        Some(o) => Some(o.to_owned()),
        None => match new_id {
            Some(n) => Some(n.to_owned()),
            None => None,
        },
    };
    (delete, new_id.is_some())
}

pub open spec fn opt_string_view(s: Option<String>) -> Option<Seq<char>> {
    match s {
        Some(x) => Some(x@),
        None => None,
    }
}

pub open spec fn no_reindex_message() -> Seq<char> {
    "No reindex in progress"@
}

/// Finishing the rebuild of an index: an index error when none is in
/// progress; else what the rebuild's tracking reports (its statistics, or
/// the error of one that gave up).
pub fn finish_reindex(rebuild: Option<&ReindexTracker>) -> (r: Result<ReindexStats, StorageError>)
    requires
        rebuild matches Some(t) ==> t.wf(),
    ensures
        match rebuild {
            None => r matches Err(StorageError::Index(m)) && m@ == no_reindex_message(),
            Some(t) => match spec_finish(t@) {
                None => r matches Err(StorageError::Index(m)) && m@ == overflow_message(),
                Some((indexed, skipped, touched)) => r matches Ok(s) && s.docs_indexed == indexed
                    && s.docs_skipped == skipped && s.concurrent_modifications == touched,
            },
        },
{
    match rebuild {
        None => {
            let m = String::from_str("No reindex in progress");
            proof {
                reveal_strlit("No reindex in progress");
            }
            Err(StorageError::Index(m))
        },
        Some(t) => t.finish(),
    }
}

/// A document written during a rebuild, while tracking holds and has room,
/// goes to both indexes, and the snapshot then leaves it alone: the newer
/// write wins over the snapshot.
pub proof fn law_written_document_wins_over_snapshot(m: ReindexModel, id: Seq<char>)
    requires
        reindex_model_wf(m),
        !m.overflow,
        m.touched.len() < MAX_CONCURRENT_MODIFICATIONS,
    ensures
        spec_after_write(m, id).1 == WriteTargets::ActiveAndShadow,
        spec_snapshot_step(spec_after_write(m, id).0, id) matches Some((_, step)) && step
            == SnapshotStep::Skip,
{
    assert(spec_touch(m.touched, id).contains(id)) by {
        if !m.touched.contains(id) {
            assert(m.touched.push(id)[m.touched.len() as int] == id);
        }
    }
}

/// The same holds of an update: the old and the new document are both left
/// alone by the snapshot when tracking had room for both.
pub proof fn law_updated_documents_win_over_snapshot(m: ReindexModel, old_id: Seq<char>, new_id: Seq<char>)
    requires
        reindex_model_wf(m),
        !m.overflow,
        m.touched.len() + 1 < MAX_CONCURRENT_MODIFICATIONS,
    ensures
        spec_after_update(m, Some(old_id), Some(new_id)).1 == WriteTargets::ActiveAndShadow,
        spec_snapshot_step(spec_after_update(m, Some(old_id), Some(new_id)).0, old_id) matches Some((_, step))
            && step == SnapshotStep::Skip,
        spec_snapshot_step(spec_after_update(m, Some(old_id), Some(new_id)).0, new_id) matches Some((_, step))
            && step == SnapshotStep::Skip,
{
    let t1 = spec_touch(m.touched, old_id);
    let t2 = spec_touch(t1, new_id);
    assert(t1.contains(old_id)) by {
        if !m.touched.contains(old_id) {
            assert(m.touched.push(old_id)[m.touched.len() as int] == old_id);
        }
    }
    assert(t2.contains(old_id)) by {
        if !t1.contains(new_id) {
            let j = choose|j: int| 0 <= j < t1.len() && t1[j] == old_id;
            assert(t1.push(new_id)[j] == old_id);
        }
    }
    assert(t2.contains(new_id)) by {
        if !t1.contains(new_id) {
            assert(t1.push(new_id)[t1.len() as int] == new_id);
        }
    }
}

/// Once tracking has given up it stays given up: every later write goes to
/// the live index only, every snapshot document is refused, and the rebuild
/// cannot complete.
pub proof fn law_overflow_is_final(m: ReindexModel, id: Seq<char>, old_id: Option<Seq<char>>, new_id: Option<Seq<char>>)
    requires
        m.overflow,
    ensures
        spec_after_write(m, id) == (m, WriteTargets::ActiveOnly),
        spec_after_update(m, old_id, new_id) == (m, WriteTargets::ActiveOnly),
        spec_snapshot_step(m, id) is None,
        spec_finish(m) is None,
{
}

proof fn lemma_touch_keeps_wf(t: Seq<Seq<char>>, id: Seq<char>)
    requires
        t.no_duplicates(),
    ensures
        spec_touch(t, id).no_duplicates(),
        spec_touch(t, id).len() <= t.len() + 1,
{
    if !t.contains(id) {
        assert forall|a: int, b: int| 0 <= a < b < t.push(id).len() implies t.push(id)[a] != t.push(id)[b] by {
            if b == t.len() {
                assert(t.contains(t[a]));
            }
        }
    }
}

/// Every step of a rebuild keeps its state well formed: the touched
/// documents stay distinct and never exceed the limit.
pub proof fn law_steps_keep_tracking_bounded(m: ReindexModel, id: Seq<char>, old_id: Option<Seq<char>>, new_id: Option<Seq<char>>)
    requires
        reindex_model_wf(m),
    ensures
        reindex_model_wf(spec_after_write(m, id).0),
        reindex_model_wf(spec_after_update(m, old_id, new_id).0),
        spec_snapshot_step(m, id) matches Some((m2, _)) ==> reindex_model_wf(m2),
{
    lemma_touch_keeps_wf(m.touched, id);
    if let Some(o) = old_id {
        lemma_touch_keeps_wf(m.touched, o);
    }
    let t1 = spec_touch_update(m.touched, old_id).0;
    if let Some(n) = new_id {
        lemma_touch_keeps_wf(t1, n);
    }
}

} // verus!
