//! Pages of a collection's documents in key order: a listing after a cursor
//! starts at the cursor's key and passes over that first entry; it reads one
//! entry more than the page size to tell whether another page follows, and
//! the next page's cursor is the last key kept.

use vstd::prelude::*;
use crate::document::string_views;
use crate::encoding::utf8;
use crate::keyspace_plan::sat_add;
use crate::order::{lex_lt, lemma_lex_lt_irreflexive};
use crate::paging::{opt_string_view, PageStep};

verus! {

/// The page of a listing whose range (in key order) is `range`: without
/// its first entry when `skip_first`, at most `limit` keys, and the cursor
/// of the next page (the last key kept) when more entries were read.
pub open spec fn spec_doc_page(range: Seq<Seq<char>>, skip_first: bool, limit: usize) -> (Seq<Seq<char>>, Option<Seq<char>>) {
    let rest = if skip_first && range.len() > 0 {
        range.drop_first()
    } else {
        range
    };
    let cap = sat_add(limit, 1) as int;
    let fetched = if rest.len() > cap {
        rest.take(cap)
    } else {
        rest
    };
    if fetched.len() > limit {
        let kept = fetched.take(limit as int);
        (kept, if kept.len() > 0 { Some(kept.last()) } else { None })
    } else {
        (fetched, None)
    }
}

/// The state of a document listing.
pub struct DocPagerModel {
    pub skip: bool,
    pub limit: usize,
    pub keys: Seq<Seq<char>>,
}

/// Deciding on the next entry of the range.
pub open spec fn doc_pager_step(m: DocPagerModel) -> (DocPagerModel, PageStep) {
    if m.skip {
        (DocPagerModel { skip: false, ..m }, PageStep::Skip)
    } else if m.keys.len() >= sat_add(m.limit, 1) {
        (m, PageStep::Stop)
    } else {
        (m, PageStep::Collect)
    }
}

/// Offering the keys of the range in turn until told to stop.
pub open spec fn doc_pager_run(m: DocPagerModel, range: Seq<Seq<char>>) -> DocPagerModel
    decreases range.len(),
{
    if range.len() == 0 {
        m
    } else {
        let (m1, step) = doc_pager_step(m);
        match step {
            PageStep::Stop => m1,
            PageStep::Skip => doc_pager_run(m1, range.drop_first()),
            PageStep::Collect => doc_pager_run(DocPagerModel { keys: m1.keys.push(range[0]), ..m1 }, range.drop_first()),
        }
    }
}

/// The page a state gives.
pub open spec fn doc_pager_result(m: DocPagerModel) -> (Seq<Seq<char>>, Option<Seq<char>>) {
    if m.keys.len() > m.limit {
        let kept = m.keys.take(m.limit as int);
        (kept, if kept.len() > 0 { Some(kept.last()) } else { None })
    } else {
        (m.keys, None)
    }
}

/// Collecting reads the keys of the range up to the fetch cap.
proof fn lemma_doc_run_collecting(m: DocPagerModel, range: Seq<Seq<char>>)
    requires
        !m.skip,
        m.keys.len() <= sat_add(m.limit, 1),
    ensures
        doc_pager_run(m, range).limit == m.limit,
        doc_pager_run(m, range).keys == (m.keys + range).take(
            if m.keys.len() + range.len() > sat_add(m.limit, 1) {
                sat_add(m.limit, 1) as int
            } else {
                (m.keys.len() + range.len()) as int
            },
        ),
    decreases range.len(),
{
    let all = m.keys + range;
    if range.len() == 0 {
        assert(all =~= m.keys);
        assert(all.take(m.keys.len() as int) =~= m.keys);
    } else if m.keys.len() >= sat_add(m.limit, 1) {
        assert(all.take(sat_add(m.limit, 1) as int) =~= m.keys);
    } else {
        let m2 = DocPagerModel { keys: m.keys.push(range[0]), ..m };
        lemma_doc_run_collecting(m2, range.drop_first());
        assert(m2.keys + range.drop_first() =~= all);
    }
}

/// Offering the keys of a range one at a time, as the pager does, gives
/// the page of the range.
pub proof fn law_doc_pager_gives_the_page(range: Seq<Seq<char>>, skip_first: bool, limit: usize)
    ensures
        doc_pager_result(doc_pager_run(DocPagerModel { skip: skip_first, limit, keys: seq![] }, range))
            == spec_doc_page(range, skip_first, limit),
{
    let m0 = DocPagerModel { skip: skip_first, limit, keys: seq![] };
    let m1 = DocPagerModel { skip: false, limit, keys: seq![] };
    let rest = if skip_first && range.len() > 0 {
        range.drop_first()
    } else {
        range
    };
    if skip_first && range.len() > 0 {
        assert(doc_pager_run(m0, range) == doc_pager_run(m1, range.drop_first()));
    } else if skip_first {
        assert(doc_pager_run(m0, range) == m0);
        assert(range =~= Seq::<Seq<char>>::empty());
    }
    lemma_doc_run_collecting(m1, rest);
    assert(m1.keys + rest =~= rest);
    let cap = sat_add(limit, 1) as int;
    if rest.len() > cap {
        assert(rest.take(cap).take(limit as int) =~= rest.take(limit as int));
    } else {
        assert(rest.take(rest.len() as int) =~= rest);
    }
    let run = doc_pager_run(m0, range);
    if skip_first && range.len() == 0 {
        assert(run.keys =~= Seq::<Seq<char>>::empty());
        assert(rest =~= Seq::<Seq<char>>::empty());
    }
}

/// The keys are in strictly increasing key order.
pub open spec fn keys_ascending(ks: Seq<Seq<char>>) -> bool {
    forall|i: int, j: int| 0 <= i < j < ks.len() ==> lex_lt(#[trigger] utf8(ks[i]), #[trigger] utf8(ks[j]))
}

/// Position of the first key at or after `c`.
pub open spec fn first_at_or_after(ks: Seq<Seq<char>>, c: Seq<char>) -> int
    decreases ks.len(),
{
    if ks.len() == 0 {
        0
    } else if !lex_lt(utf8(ks[0]), utf8(c)) {
        0
    } else {
        first_at_or_after(ks.drop_first(), c) + 1
    }
}

/// The keys of a collection from `c` on: the range a listing after the
/// cursor `c` reads.
pub open spec fn range_from(ks: Seq<Seq<char>>, c: Seq<char>) -> Seq<Seq<char>> {
    ks.skip(first_at_or_after(ks, c))
}

proof fn lemma_first_at_key(ks: Seq<Seq<char>>, j: int)
    requires
        keys_ascending(ks),
        0 <= j < ks.len(),
    ensures
        first_at_or_after(ks, ks[j]) == j,
    decreases j,
{
    lemma_lex_lt_irreflexive(utf8(ks[j]));
    if j > 0 {
        let t = ks.drop_first();
        assert(lex_lt(utf8(ks[0]), utf8(ks[j])));
        assert(keys_ascending(t)) by {
            assert forall|a: int, b: int| 0 <= a < b < t.len() implies lex_lt(#[trigger] utf8(t[a]), #[trigger] utf8(t[b])) by {
                assert(t[a] == ks[a + 1] && t[b] == ks[b + 1]);
            }
        }
        assert(t[j - 1] == ks[j]);
        lemma_first_at_key(t, j - 1);
    }
}

/// Listing again after the cursor a page returns, among keys in increasing
/// order, continues exactly where the page stopped: the page and the entries
/// after the new cursor together are what the first listing had after its
/// skipped entry.
pub proof fn law_next_doc_page_follows(ks: Seq<Seq<char>>, p: int, skip_first: bool, limit: usize)
    requires
        keys_ascending(ks),
        0 <= p <= ks.len(),
        spec_doc_page(ks.skip(p), skip_first, limit).1 is Some,
    ensures
        ({
            let range = ks.skip(p);
            let rest = if skip_first && range.len() > 0 {
                range.drop_first()
            } else {
                range
            };
            let c = spec_doc_page(range, skip_first, limit).1->0;
            spec_doc_page(range, skip_first, limit).0 + range_from(ks, c).drop_first() == rest
        }),
{
    let range = ks.skip(p);
    let off: int = if skip_first && range.len() > 0 { 1 } else { 0 };
    let rest = if skip_first && range.len() > 0 {
        range.drop_first()
    } else {
        range
    };
    assert(rest =~= ks.skip(p + off));
    let l = limit as int;
    assert(rest.len() > l);
    assert(l > 0);
    let j = p + off + l - 1;
    assert(rest[l - 1] == ks[j]);
    let cap = sat_add(limit, 1) as int;
    let fetched = if rest.len() > cap { rest.take(cap) } else { rest };
    assert(fetched.take(l) =~= rest.take(l));
    lemma_first_at_key(ks, j);
    assert(range_from(ks, ks[j]).drop_first() =~= rest.skip(l));
    assert(rest.take(l) + rest.skip(l) =~= rest);
}

/// A document listing in progress: offer each entry of the range (from the
/// cursor's key on) to `step`, hand the key of each entry read after a
/// `Collect` to `collect`, stop at `Stop` or at the end of the range, then
/// `finish`.
#[derive(Debug)]
pub struct DocPager {
    skip: bool,
    limit: usize,
    keys: Vec<String>,
}

impl View for DocPager {
    type V = DocPagerModel;

    closed spec fn view(&self) -> DocPagerModel {
        DocPagerModel { skip: self.skip, limit: self.limit, keys: string_views(self.keys@) }
    }
}

impl DocPager {
    /// A listing of pages of `limit` documents; `after_cursor` when it
    /// continues after a cursor (whose own entry starts the range).
    pub fn new(after_cursor: bool, limit: usize) -> (r: Self)
        ensures
            r@ == (DocPagerModel { skip: after_cursor, limit, keys: seq![] }),
    {
        let r = DocPager { skip: after_cursor, limit, keys: Vec::new() };
        assert(r@.keys =~= Seq::<Seq<char>>::empty());
        r
    }

    /// Decides on the next entry of the range.
    pub fn step(&mut self) -> (r: PageStep)
        ensures
            (final(self)@, r) == doc_pager_step(old(self)@),
    {
        if self.skip {
            self.skip = false;
            PageStep::Skip
        } else if self.keys.len() >= self.limit.saturating_add(1) {
            PageStep::Stop
        } else {
            PageStep::Collect
        }
    }

    /// Records the key of an entry read after a `Collect`.
    pub fn collect(&mut self, key: &str)
        ensures
            final(self)@ == (DocPagerModel { keys: old(self)@.keys.push(key@), ..old(self)@ }),
    {
        let ghost before = self@.keys;
        self.keys.push(String::from_str(key));
        assert(self@.keys =~= before.push(key@));
    }

    /// How many of the read documents the page keeps, and the cursor of the
    /// next page.
    pub fn finish(&self) -> (r: (usize, Option<String>))
        ensures
            (self@.keys.take(r.0 as int), opt_string_view(r.1)) == doc_pager_result(self@),
    {
        if self.keys.len() > self.limit {
            let c = if self.limit > 0 {
                Some(self.keys[self.limit - 1].clone())
            } else {
                None
            };
            proof {
                if self.limit > 0 {
                    assert(self@.keys.take(self.limit as int).last() == self@.keys[self.limit - 1]);
                }
            }
            (self.limit, c)
        } else {
            assert(self@.keys.take(self@.keys.len() as int) =~= self@.keys);
            (self.keys.len(), None)
        }
    }
}

} // verus!
