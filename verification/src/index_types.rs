//! Types shared by the index backends: scan results, range operators and
//! index kinds.

use vstd::prelude::*;
use crate::value::Value;

verus! {

/// Result of an index scan.
#[derive(Debug)]
pub struct ScanResult {
    /// Ids of the matching documents.
    pub doc_ids: Vec<String>,
    /// More results exist beyond the limit.
    pub exceeded_limit: bool,
}

impl ScanResult {
    pub fn new(doc_ids: Vec<String>, exceeded_limit: bool) -> (r: Self)
        ensures
            r.doc_ids@ == doc_ids@,
            r.exceeded_limit == exceeded_limit,
    {
        ScanResult { doc_ids, exceeded_limit }
    }

    pub fn empty() -> (r: Self)
        ensures
            r.doc_ids@.len() == 0,
            !r.exceeded_limit,
    {
        ScanResult { doc_ids: Vec::new(), exceeded_limit: false }
    }
}

/// Range operator of an index scan.
#[derive(Debug)]
pub enum RangeOp {
    Gt,
    Gte,
    Lt,
    Lte,
    /// Between two values; each bound inclusive or exclusive.
    Between { lower: Value, upper: Value, lower_inclusive: bool, upper_inclusive: bool },
}

/// The operator named by a text: `gt`, `gte`, `lt`, `lte`.
pub open spec fn spec_range_op_from_str(op: Seq<char>) -> Option<RangeOp> {
    if op == seq!['g', 't'] {
        Some(RangeOp::Gt)
    } else if op == seq!['g', 't', 'e'] {
        Some(RangeOp::Gte)
    } else if op == seq!['l', 't'] {
        Some(RangeOp::Lt)
    } else if op == seq!['l', 't', 'e'] {
        Some(RangeOp::Lte)
    } else {
        None
    }
}

/// The name of an operator.
pub open spec fn spec_range_op_name(op: RangeOp) -> Seq<char> {
    match op {
        RangeOp::Gt => seq!['g', 't'],
        RangeOp::Gte => seq!['g', 't', 'e'],
        RangeOp::Lt => seq!['l', 't'],
        RangeOp::Lte => seq!['l', 't', 'e'],
        RangeOp::Between { .. } => seq!['b', 'e', 't', 'w', 'e', 'e', 'n'],
    }
}

fn text_eq(a: &str, b: &str) -> (r: bool)
    ensures
        r == (a@ == b@),
{
    crate::document::str_eq(a, b)
}

impl RangeOp {
    /// The operator named by `op`, if it names one of the four comparisons.
    pub fn from_str(op: &str) -> (r: Option<Self>)
        ensures
            r == spec_range_op_from_str(op@),
    {
        proof {
            reveal_strlit("gt");
            reveal_strlit("gte");
            reveal_strlit("lt");
            reveal_strlit("lte");
            assert("gt"@ =~= seq!['g', 't']);
            assert("gte"@ =~= seq!['g', 't', 'e']);
            assert("lt"@ =~= seq!['l', 't']);
            assert("lte"@ =~= seq!['l', 't', 'e']);
        }
        if text_eq(op, "gt") {
            Some(RangeOp::Gt)
        } else if text_eq(op, "gte") {
            Some(RangeOp::Gte)
        } else if text_eq(op, "lt") {
            Some(RangeOp::Lt)
        } else if text_eq(op, "lte") {
            Some(RangeOp::Lte)
        } else {
            None
        }
    }

    /// The operator's name.
    pub fn as_str(&self) -> (r: &'static str)
        ensures
            r@ == spec_range_op_name(*self),
    {
        proof {
            reveal_strlit("gt");
            reveal_strlit("gte");
            reveal_strlit("lt");
            reveal_strlit("lte");
            reveal_strlit("between");
        }
        match self {
            RangeOp::Gt => "gt",
            RangeOp::Gte => "gte",
            RangeOp::Lt => "lt",
            RangeOp::Lte => "lte",
            RangeOp::Between { .. } => "between",
        }
    }
}

/// Law: the name of each comparison operator reads back as that operator;
/// `between` names no operator that text can give.
pub proof fn law_range_op_name_roundtrip(op: RangeOp)
    ensures
        !(op is Between) ==> spec_range_op_from_str(spec_range_op_name(op)) == Some(op),
        op is Between ==> spec_range_op_from_str(spec_range_op_name(op)) is None,
{
    assert(seq!['g', 't'].len() != seq!['g', 't', 'e'].len());
    assert(seq!['l', 't'].len() != seq!['l', 't', 'e'].len());
    assert(seq!['g', 't'][0] != seq!['l', 't'][0]);
    assert(seq!['g', 't', 'e'][0] != seq!['l', 't', 'e'][0]);
    assert(seq!['g', 't', 'e'][0] != seq!['l', 't'][0]);
    assert(seq!['g', 't'][0] != seq!['l', 't', 'e'][0]);
}

/// Kind of index backend.
#[derive(Clone, Copy, PartialEq, Eq, Structural, Hash, Debug)]
pub enum IndexType {
    /// Ordered index over scalar values.
    BTree,
    /// Vector similarity index.
    Hnsw,
    /// Full-text index.
    FullText,
}

impl Default for IndexType {
    fn default() -> (r: Self)
        ensures
            r == IndexType::BTree,
    {
        IndexType::BTree
    }
}

} // verus!
