//! Cursor pagination of edge listings: the entries of a node's edge range
//! are offered one at a time; entries up to and including the cursor are
//! passed over, then up to the page size are collected, and one more tells
//! that another page follows, whose cursor is the last edge kept.

use vstd::prelude::*;
use crate::document::{opt_str_view, str_eq, string_views};

verus! {

/// Largest page of an edge listing.
pub const MAX_EDGE_PAGE: usize = 1000;

/// The page size asked for, brought into `1..=1000`.
pub open spec fn page_limit(limit: nat) -> nat {
    if limit < 1 {
        1
    } else if limit > MAX_EDGE_PAGE {
        MAX_EDGE_PAGE as nat
    } else {
        limit
    }
}

/// Position of the first entry with the given id.
pub open spec fn first_index(ids: Seq<Seq<char>>, id: Seq<char>) -> Option<int>
    decreases ids.len(),
{
    if ids.len() == 0 {
        None
    } else if ids[0] == id {
        Some(0)
    } else {
        match first_index(ids.drop_first(), id) {
            Some(i) => Some(i + 1),
            None => None,
        }
    }
}

/// Where a page starts: at the beginning without a cursor, just after the
/// first entry that is the cursor, or past the end when no entry is.
pub open spec fn cursor_start(ids: Seq<Seq<char>>, after: Option<Seq<char>>) -> int {
    match after {
        None => 0,
        Some(c) => match first_index(ids, c) {
            Some(i) => i + 1,
            None => ids.len() as int,
        },
    }
}

/// The ids of the entries.
pub open spec fn entry_ids(items: Seq<(Seq<char>, bool)>) -> Seq<Seq<char>> {
    items.map_values(|e: (Seq<char>, bool)| e.0)
}

/// The ids of the entries that hold an edge (an incoming entry whose edge
/// record is gone holds none), in order.
pub open spec fn present_ids(items: Seq<(Seq<char>, bool)>) -> Seq<Seq<char>>
    decreases items.len(),
{
    if items.len() == 0 {
        seq![]
    } else if items[0].1 {
        seq![items[0].0] + present_ids(items.drop_first())
    } else {
        present_ids(items.drop_first())
    }
}

/// The page of a listing whose entries are `items` (each an edge id and
/// whether it holds an edge): the edges after the cursor, at most the page
/// size of them, and the cursor of the next page when more edges follow.
pub open spec fn spec_page(items: Seq<(Seq<char>, bool)>, after: Option<Seq<char>>, limit: nat) -> (Seq<Seq<char>>, Option<Seq<char>>) {
    let l = page_limit(limit);
    let rest = present_ids(items.skip(cursor_start(entry_ids(items), after)));
    if rest.len() > l {
        (rest.take(l as int), Some(rest[l - 1]))
    } else {
        (rest, None)
    }
}

/// What to do with an offered entry.
#[derive(Clone, Copy, PartialEq, Eq, Structural, Debug)]
pub enum PageStep {
    /// Pass over it (the cursor is not reached yet, or is this entry).
    Skip,
    /// Read its edge and, if there is one, hand it to `collect`.
    Collect,
    /// The page is full and one more edge is known: stop reading.
    Stop,
}

/// The state of a listing: the cursor still to be passed, the page size,
/// and the ids collected.
pub struct PagerModel {
    pub skipping: Option<Seq<char>>,
    pub limit: nat,
    pub collected: Seq<Seq<char>>,
}

/// The state before the first entry.
pub open spec fn pager_start(after: Option<Seq<char>>, limit: nat) -> PagerModel {
    PagerModel { skipping: after, limit: page_limit(limit), collected: seq![] }
}

/// Deciding on an entry.
pub open spec fn pager_step(m: PagerModel, id: Seq<char>) -> (PagerModel, PageStep) {
    match m.skipping {
        Some(c) => if id == c {
            (PagerModel { skipping: None, ..m }, PageStep::Skip)
        } else {
            (m, PageStep::Skip)
        },
        None => if m.collected.len() > m.limit {
            (m, PageStep::Stop)
        } else {
            (m, PageStep::Collect)
        },
    }
}

/// Offering the entries in turn until told to stop; an entry that is to be
/// collected is collected when it holds an edge.
pub open spec fn pager_run(m: PagerModel, items: Seq<(Seq<char>, bool)>) -> PagerModel
    decreases items.len(),
{
    if items.len() == 0 {
        m
    } else {
        let (m1, step) = pager_step(m, items[0].0);
        match step {
            PageStep::Stop => m1,
            PageStep::Skip => pager_run(m1, items.drop_first()),
            PageStep::Collect => if items[0].1 {
                pager_run(PagerModel { collected: m1.collected.push(items[0].0), ..m1 }, items.drop_first())
            } else {
                pager_run(m1, items.drop_first())
            },
        }
    }
}

/// The page a state gives: the collected ids but the extra one, and the
/// cursor of the next page when there was an extra one.
pub open spec fn pager_result(m: PagerModel) -> (Seq<Seq<char>>, Option<Seq<char>>) {
    if m.collected.len() > m.limit {
        (m.collected.take(m.limit as int), Some(m.collected[m.limit - 1]))
    } else {
        (m.collected, None)
    }
}

/// Past the cursor, the run collects the present ids after those already
/// collected, up to one more than the page size.
proof fn lemma_run_collecting(m: PagerModel, items: Seq<(Seq<char>, bool)>)
    requires
        m.skipping is None,
        m.limit >= 1,
        m.collected.len() <= m.limit + 1,
    ensures
        pager_run(m, items).limit == m.limit,
        pager_run(m, items).collected == (m.collected + present_ids(items)).take(
            if m.collected.len() + present_ids(items).len() > m.limit + 1 {
                m.limit + 1
            } else {
                m.collected.len() + present_ids(items).len()
            } as int,
        ),
    decreases items.len(),
{
    let all = m.collected + present_ids(items);
    if items.len() == 0 {
        assert(all =~= m.collected);
        assert(all.take(m.collected.len() as int) =~= m.collected);
    } else if m.collected.len() > m.limit {
        assert(all.take(m.limit + 1 as int) =~= m.collected);
    } else {
        let rest = items.drop_first();
        if items[0].1 {
            let m2 = PagerModel { collected: m.collected.push(items[0].0), ..m };
            lemma_run_collecting(m2, rest);
            assert(m2.collected + present_ids(rest) =~= all);
        } else {
            lemma_run_collecting(m, rest);
            assert(m.collected + present_ids(rest) =~= all);
        }
    }
}

/// Before the cursor, the run passes over the entries up to the first one
/// that is the cursor and then collects as from the start; it collects
/// nothing when no entry is the cursor.
proof fn lemma_run_skipping(m: PagerModel, c: Seq<char>, items: Seq<(Seq<char>, bool)>)
    requires
        m.skipping == Some(c),
        m.collected.len() == 0,
    ensures
        pager_run(m, items) == match first_index(entry_ids(items), c) {
            Some(i) => pager_run(PagerModel { skipping: None, ..m }, items.skip(i + 1)),
            None => m,
        },
    decreases items.len(),
{
    if items.len() == 0 {
    } else {
        let rest = items.drop_first();
        assert(entry_ids(items).drop_first() =~= entry_ids(rest));
        assert(entry_ids(items)[0] == items[0].0);
        if items[0].0 == c {
            assert(items.skip(1) =~= rest);
        } else {
            lemma_run_skipping(m, c, rest);
            lemma_first_index_bounds(entry_ids(rest), c);
            match first_index(entry_ids(rest), c) {
                Some(i) => {
                    assert(items.skip(i + 2) =~= rest.skip(i + 1));
                },
                None => {},
            }
        }
    }
}

proof fn lemma_first_index_bounds(ids: Seq<Seq<char>>, c: Seq<char>)
    ensures
        first_index(ids, c) matches Some(i) ==> 0 <= i < ids.len() && ids[i] == c,
    decreases ids.len(),
{
    if ids.len() > 0 {
        lemma_first_index_bounds(ids.drop_first(), c);
    }
}

/// Offering the entries of a listing one at a time, as the pager does, gives
/// the page of the listing.
pub proof fn law_pager_gives_the_page(items: Seq<(Seq<char>, bool)>, after: Option<Seq<char>>, limit: nat)
    ensures
        pager_result(pager_run(pager_start(after, limit), items)) == spec_page(items, after, limit),
{
    let m0 = pager_start(after, limit);
    let l = page_limit(limit);
    let start = cursor_start(entry_ids(items), after);
    let m1 = PagerModel { skipping: None, ..m0 };
    match after {
        None => {
            assert(items.skip(0) =~= items);
            lemma_run_collecting(m0, items);
            assert(m0.collected + present_ids(items) =~= present_ids(items));
        },
        Some(c) => {
            lemma_run_skipping(m0, c, items);
            lemma_first_index_bounds(entry_ids(items), c);
            match first_index(entry_ids(items), c) {
                Some(i) => {
                    lemma_run_collecting(m1, items.skip(i + 1));
                    assert(m1.collected + present_ids(items.skip(i + 1)) =~= present_ids(items.skip(i + 1)));
                },
                None => {
                    assert(items.skip(items.len() as int) =~= Seq::<(Seq<char>, bool)>::empty());
                    assert(present_ids(items.skip(start)) =~= Seq::<Seq<char>>::empty());
                },
            }
        },
    }
    let rest = present_ids(items.skip(start));
    let run = pager_run(m0, items);
    if rest.len() > l {
        assert(run.collected =~= rest.take(l + 1 as int));
        assert(run.collected.take(l as int) =~= rest.take(l as int));
    } else {
        assert(run.collected =~= rest.take(rest.len() as int));
        assert(rest.take(rest.len() as int) =~= rest);
    }
}

proof fn lemma_present_ids_append(a: Seq<(Seq<char>, bool)>, b: Seq<(Seq<char>, bool)>)
    ensures
        present_ids(a + b) == present_ids(a) + present_ids(b),
    decreases a.len(),
{
    if a.len() == 0 {
        assert(a + b =~= b);
        assert(present_ids(a) + present_ids(b) =~= present_ids(b));
    } else {
        lemma_present_ids_append(a.drop_first(), b);
        assert((a + b).drop_first() =~= a.drop_first() + b);
        assert((a + b)[0] == a[0]);
        if a[0].1 {
            assert(seq![a[0].0] + (present_ids(a.drop_first()) + present_ids(b)) =~= (seq![a[0].0]
                + present_ids(a.drop_first())) + present_ids(b));
        }
    }
}

/// The `k`-th present id is held by an entry at some position `p`, and the
/// entries up to it hold exactly the first `k + 1` present ids.
proof fn lemma_present_position(s: Seq<(Seq<char>, bool)>, k: int) -> (p: int)
    requires
        0 <= k < present_ids(s).len(),
    ensures
        0 <= p < s.len(),
        s[p].1,
        s[p].0 == present_ids(s)[k],
        present_ids(s.take(p + 1)) == present_ids(s).take(k + 1),
    decreases s.len(),
{
    let t = s.drop_first();
    assert(s.take(1) =~= seq![s[0]]);
    assert(present_ids(seq![s[0]]) =~= if s[0].1 { seq![s[0].0] } else { Seq::<Seq<char>>::empty() }) by {
        assert(seq![s[0]].drop_first() =~= Seq::<(Seq<char>, bool)>::empty());
        assert(present_ids(Seq::<(Seq<char>, bool)>::empty()) =~= Seq::<Seq<char>>::empty());
        assert(seq![s[0]][0] == s[0]);
        if s[0].1 {
            assert(seq![s[0].0] + Seq::<Seq<char>>::empty() =~= seq![s[0].0]);
        }
    }
    if s[0].1 && k == 0 {
        assert(present_ids(s).take(1) =~= seq![s[0].0]);
        0
    } else {
        let k1 = if s[0].1 { k - 1 } else { k };
        let q = lemma_present_position(t, k1);
        assert(s.take(q + 2) =~= seq![s[0]] + t.take(q + 1));
        lemma_present_ids_append(seq![s[0]], t.take(q + 1));
        if s[0].1 {
            assert(present_ids(s).take(k + 1) =~= seq![s[0].0] + present_ids(t).take(k));
        }
        q + 1
    }
}

proof fn lemma_first_index_of_distinct(ids: Seq<Seq<char>>, j: int)
    requires
        ids.no_duplicates(),
        0 <= j < ids.len(),
    ensures
        first_index(ids, ids[j]) == Some(j),
    decreases ids.len(),
{
    if j > 0 {
        let t = ids.drop_first();
        assert(t.no_duplicates());
        assert(t[j - 1] == ids[j]);
        lemma_first_index_of_distinct(t, j - 1);
        assert(ids[0] != ids[j]);
    }
}

/// Listing again from the cursor a page returns continues exactly where the
/// page stopped (the entry ids being distinct): following the cursors, the
/// pages together give every edge of the listing once, in order.
pub proof fn law_next_page_follows(items: Seq<(Seq<char>, bool)>, after: Option<Seq<char>>, limit: nat)
    requires
        entry_ids(items).no_duplicates(),
        spec_page(items, after, limit).1 is Some,
    ensures
        ({
            let l = page_limit(limit);
            let rest = present_ids(items.skip(cursor_start(entry_ids(items), after)));
            let c = spec_page(items, after, limit).1->0;
            &&& spec_page(items, after, limit).0 + present_ids(
                items.skip(cursor_start(entry_ids(items), Some(c))),
            ) == rest
        }),
{
    let ids = entry_ids(items);
    let l = page_limit(limit);
    let start = cursor_start(ids, after);
    let s = items.skip(start);
    let rest = present_ids(s);
    assert(0 <= start <= items.len()) by {
        match after {
            Some(c) => lemma_first_index_bounds(ids, c),
            None => {},
        }
    }
    let p = lemma_present_position(s, l - 1);
    let j = start + p;
    assert(ids[j] == rest[l - 1]);
    lemma_first_index_of_distinct(ids, j);
    assert(s =~= s.take(p + 1) + s.skip(p + 1));
    lemma_present_ids_append(s.take(p + 1), s.skip(p + 1));
    assert(s.skip(p + 1) =~= items.skip(j + 1));
    assert(rest.take(l as int) + rest.skip(l as int) =~= rest);
}

/// A listing in progress: offer each entry of the range to `step`, hand
/// each edge read after a `Collect` to `collect`, stop at `Stop` or at the
/// end of the range, then `finish`.
#[derive(Debug)]
pub struct EdgePager {
    skipping: Option<String>,
    limit: usize,
    collected: Vec<String>,
}

impl View for EdgePager {
    type V = PagerModel;

    closed spec fn view(&self) -> PagerModel {
        PagerModel {
            skipping: match self.skipping {
                Some(c) => Some(c@),
                None => None,
            },
            limit: self.limit as nat,
            collected: string_views(self.collected@),
        }
    }
}

impl EdgePager {
    #[verifier::type_invariant]
    closed spec fn wf(self) -> bool {
        1 <= self.limit <= MAX_EDGE_PAGE
    }

    /// A listing after the cursor `after` (from the start without one), of
    /// pages of `limit` edges brought into `1..=1000`.
    pub fn new(after: Option<&str>, limit: usize) -> (r: Self)
        ensures
            r@ == pager_start(opt_str_view(after), limit as nat),
    {
        let l = if limit < 1 {
            1
        } else if limit > MAX_EDGE_PAGE {
            MAX_EDGE_PAGE
        } else {
            limit
        };
        let skipping = match after {
            Some(c) => Some(String::from_str(c)),
            None => None,
        };
        let r = EdgePager { skipping, limit: l, collected: Vec::new() };
        assert(r@.collected =~= Seq::<Seq<char>>::empty());
        r
    }

    /// Decides on the entry with the given edge id.
    pub fn step(&mut self, id: &str) -> (r: PageStep)
        ensures
            (final(self)@, r) == pager_step(old(self)@, id@),
    {
        proof {
            use_type_invariant(&*self);
        }
        let reached = match &self.skipping {
            Some(c) => Some(str_eq(c.as_str(), id)),
            None => None,
        };
        match reached {
            Some(true) => {
                self.skipping = None;
                PageStep::Skip
            },
            Some(false) => PageStep::Skip,
            None => {
                if self.collected.len() > self.limit {
                    PageStep::Stop
                } else {
                    PageStep::Collect
                }
            },
        }
    }

    /// Records an edge read after a `Collect`.
    pub fn collect(&mut self, id: &str)
        ensures
            final(self)@ == (PagerModel { collected: old(self)@.collected.push(id@), ..old(self)@ }),
    {
        proof {
            use_type_invariant(&*self);
        }
        let ghost before = self@.collected;
        let mut v: Vec<String> = Vec::new();
        std::mem::swap(&mut v, &mut self.collected);
        v.push(String::from_str(id));
        self.collected = v;
        assert(self@.collected =~= before.push(id@));
    }

    /// How many of the collected edges the page keeps, and the cursor of
    /// the next page when one more was collected.
    pub fn finish(&self) -> (r: (usize, Option<String>))
        ensures
            (self@.collected.take(r.0 as int), opt_string_view(r.1)) == pager_result(self@),
    {
        proof {
            use_type_invariant(self);
        }
        if self.collected.len() > self.limit {
            let c = self.collected[self.limit - 1].clone();
            (self.limit, Some(c))
        } else {
            assert(self@.collected.take(self@.collected.len() as int) =~= self@.collected);
            (self.collected.len(), None)
        }
    }
}

/// The view of an optional string.
pub open spec fn opt_string_view(s: Option<String>) -> Option<Seq<char>> {
    match s {
        Some(s) => Some(s@),
        None => None,
    }
}

} // verus!
