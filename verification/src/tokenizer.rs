//! A tokenizer that splits text on the matches of a regular expression:
//! the tokens are the non-empty stretches between matches.

use vstd::prelude::*;
use vstd::string::*;
use vstd::utf8::{
    encode_utf8, encode_utf8_valid_utf8, is_char_boundary, is_char_boundary_iff_not_is_continuation_byte,
    is_char_boundary_start_end_of_seq, valid_utf8,
};
use crate::external::{regex_compiles, regex_find_spans, regex_is_valid, regex_match_spans};

verus! {

/// The stretches between the matches from `k` on, the previous match having
/// ended at `last`, up to the end `len` of the text; empty stretches are left
/// out.
pub open spec fn splits_from(ms: Seq<(usize, usize)>, k: int, last: usize, len: usize) -> Seq<(usize, usize)>
    decreases ms.len() - k,
{
    if k < 0 || k >= ms.len() {
        if last < len {
            seq![(last, len)]
        } else {
            seq![]
        }
    } else {
        (if ms[k].0 > last {
            seq![(last, ms[k].0)]
        } else {
            seq![]
        }) + splits_from(ms, k + 1, ms[k].1, len)
    }
}

/// The token spans of a text of `len` bytes, given the spans of the
/// separator matches in order.
pub open spec fn spec_token_splits(len: usize, ms: Seq<(usize, usize)>) -> Seq<(usize, usize)> {
    splits_from(ms, 0, 0, len)
}

/// The token spans of a text of `text_len` bytes between the given matches.
pub fn token_splits(text_len: usize, matches: &[(usize, usize)]) -> (r: Vec<(usize, usize)>)
    ensures
        r@ == spec_token_splits(text_len, matches@),
{
    let ghost ms = matches@;
    let mut out: Vec<(usize, usize)> = Vec::new();
    let mut last: usize = 0;
    let mut k: usize = 0;
    while k < matches.len()
        invariant
            k <= ms.len(),
            ms == matches@,
            out@ + splits_from(ms, k as int, last, text_len) == spec_token_splits(text_len, ms),
        decreases ms.len() - k,
    {
        let (start, end) = matches[k];
        let ghost before = out@;
        if start > last {
            out.push((last, start));
        }
        assert(out@ + splits_from(ms, k + 1, end, text_len) =~= before + splits_from(ms, k as int, last, text_len));
        last = end;
        k = k + 1;
    }
    let ghost before = out@;
    if last < text_len {
        out.push((last, text_len));
    }
    assert(out@ =~= before + splits_from(ms, k as int, last, text_len));
    out
}

/// Every span has `from < to <= len`, both on character boundaries, when
/// the matches are successive, within the text and on boundaries.
proof fn lemma_splits_valid(ms: Seq<(usize, usize)>, k: int, last: usize, bytes: Seq<u8>)
    requires
        valid_utf8(bytes),
        bytes.len() <= usize::MAX,
        0 <= k <= ms.len(),
        last <= bytes.len(),
        is_char_boundary(bytes, last as int),
        k < ms.len() ==> last <= ms[k].0,
        forall|i: int| 0 <= i < ms.len() ==> (#[trigger] ms[i]).0 <= ms[i].1 && ms[i].1 <= bytes.len(),
        forall|i: int| 0 <= i < ms.len() - 1 ==> (#[trigger] ms[i]).1 <= ms[i + 1].0,
        forall|i: int| 0 <= i < ms.len() ==> is_char_boundary(bytes, (#[trigger] ms[i]).0 as int)
            && is_char_boundary(bytes, ms[i].1 as int),
    ensures
        forall|i: int| 0 <= i < splits_from(ms, k, last, bytes.len() as usize).len() ==> {
            let s = #[trigger] splits_from(ms, k, last, bytes.len() as usize)[i];
            &&& s.0 < s.1 <= bytes.len()
            &&& is_char_boundary(bytes, s.0 as int)
            &&& is_char_boundary(bytes, s.1 as int)
        },
    decreases ms.len() - k,
{
    let len = bytes.len() as usize;
    is_char_boundary_start_end_of_seq(bytes);
    if k < ms.len() {
        let m = ms[k];
        let head: Seq<(usize, usize)> = if m.0 > last {
            seq![(last, m.0)]
        } else {
            seq![]
        };
        if k + 1 < ms.len() {
            assert(ms[k].1 <= ms[k + 1].0);
        }
        lemma_splits_valid(ms, k + 1, m.1, bytes);
        let rest = splits_from(ms, k + 1, m.1, len);
        assert(splits_from(ms, k, last, len) == head + rest);
        assert forall|i: int| 0 <= i < splits_from(ms, k, last, len).len() implies {
            let s = #[trigger] splits_from(ms, k, last, len)[i];
            &&& s.0 < s.1 <= bytes.len()
            &&& is_char_boundary(bytes, s.0 as int)
            &&& is_char_boundary(bytes, s.1 as int)
        } by {
            if i >= head.len() {
                assert(splits_from(ms, k, last, len)[i] == rest[i - head.len()]);
            }
        }
    }
}

/// The piece of a text between two character boundaries.
fn slice_text<'a>(text: &'a str, from: usize, to: usize) -> (r: &'a str)
    requires
        from < to <= text.spec_bytes().len(),
        is_char_boundary(text.spec_bytes(), from as int),
        is_char_boundary(text.spec_bytes(), to as int),
    ensures
        r.spec_bytes() == text.spec_bytes().subrange(from as int, to as int),
{
    let (head, _tail) = text.split_at(to);
    proof {
        let bytes = text.spec_bytes();
        let hb = head.spec_bytes();
        encode_utf8_valid_utf8(text@);
        encode_utf8_valid_utf8(head@);
        assert(hb =~= bytes.subrange(0, to as int));
        is_char_boundary_iff_not_is_continuation_byte(bytes, from as int);
        is_char_boundary_iff_not_is_continuation_byte(hb, from as int);
    }
    let (_, piece) = head.split_at(from);
    piece
}

/// A token: its text, its byte offsets in the input and its position.
#[derive(Debug)]
pub struct Token {
    pub text: String,
    pub offset_from: usize,
    pub offset_to: usize,
    pub position: usize,
    pub position_length: usize,
}

/// Splits text on the matches of a pattern that compiles.
#[derive(Debug)]
pub struct PatternTokenizer {
    pattern: String,
}

impl View for PatternTokenizer {
    type V = Seq<char>;

    closed spec fn view(&self) -> Seq<char> {
        self.pattern@
    }
}

impl PatternTokenizer {
    #[verifier::type_invariant]
    closed spec fn wf(self) -> bool {
        regex_compiles(self.pattern@)
    }

    /// A tokenizer splitting on `pattern`, or `None` when the pattern does
    /// not compile.
    pub fn new(pattern: &str) -> (r: Option<Self>)
        ensures
            r is Some <==> regex_compiles(pattern@),
            r matches Some(t) ==> t@ == pattern@,
    {
        if regex_is_valid(pattern) {
            Some(PatternTokenizer { pattern: pattern.to_owned() })
        } else {
            None
        }
    }

    /// The tokens of a text: the non-empty stretches between the pattern's
    /// matches, in order, numbered from zero, each one position long.
    pub fn token_stream(&self, text: &str) -> (r: Vec<Token>)
        ensures
            ({
                let sp = spec_token_splits(text.spec_bytes().len() as usize, regex_match_spans(self@, text@));
                tokens_are(r@, text.spec_bytes(), sp)
            }),
    {
        proof {
            use_type_invariant(self);
        }
        let matches = regex_find_spans(self.pattern.as_str(), text);
        let len = text.as_bytes().len();
        let splits = token_splits(len, matches.as_slice());
        let ghost bytes = text.spec_bytes();
        assert(len == bytes.len());
        proof {
            encode_utf8_valid_utf8(text@);
            is_char_boundary_start_end_of_seq(bytes);
            lemma_splits_valid(matches@, 0, 0, bytes);
            assert(splits@ == splits_from(matches@, 0, 0, bytes.len() as usize));
        }
        tokens_at(text, splits.as_slice())
    }
}

/// The tokens are the given spans of the text, numbered from zero.
pub open spec fn tokens_are(ts: Seq<Token>, bytes: Seq<u8>, sp: Seq<(usize, usize)>) -> bool {
    &&& ts.len() == sp.len()
    &&& forall|i: int| 0 <= i < ts.len() ==> {
        let t = #[trigger] ts[i];
        &&& t.offset_from == sp[i].0
        &&& t.offset_to == sp[i].1
        &&& t.offset_from < t.offset_to
        &&& t.position == i
        &&& t.position_length == 1
        &&& encode_utf8(t.text@) == bytes.subrange(sp[i].0 as int, sp[i].1 as int)
    }
}

/// The tokens at the given spans of a text, each span non-empty and on
/// character boundaries.
pub fn tokens_at(text: &str, splits: &[(usize, usize)]) -> (r: Vec<Token>)
    requires
        forall|j: int| 0 <= j < splits@.len() ==> {
            let s = #[trigger] splits@[j];
            &&& s.0 < s.1 <= text.spec_bytes().len()
            &&& is_char_boundary(text.spec_bytes(), s.0 as int)
            &&& is_char_boundary(text.spec_bytes(), s.1 as int)
        },
    ensures
        tokens_are(r@, text.spec_bytes(), splits@),
{
    let ghost bytes = text.spec_bytes();
    let mut tokens: Vec<Token> = Vec::new();
    let mut i: usize = 0;
    while i < splits.len()
        invariant
            i <= splits@.len(),
            bytes == text.spec_bytes(),
            forall|j: int| 0 <= j < splits@.len() ==> {
                let s = #[trigger] splits@[j];
                &&& s.0 < s.1 <= bytes.len()
                &&& is_char_boundary(bytes, s.0 as int)
                &&& is_char_boundary(bytes, s.1 as int)
            },
            tokens@.len() == i,
            forall|j: int| 0 <= j < i ==> {
                let t = #[trigger] tokens@[j];
                &&& t.offset_from == splits@[j].0
                &&& t.offset_to == splits@[j].1
                &&& t.offset_from < t.offset_to
                &&& t.position == j
                &&& t.position_length == 1
                &&& encode_utf8(t.text@) == bytes.subrange(splits@[j].0 as int, splits@[j].1 as int)
            },
        decreases splits@.len() - i,
    {
        let (from, to) = splits[i];
        assert(splits@[i as int] == (from, to));
        let piece = slice_text(text, from, to);
        let t = Token { text: piece.to_owned(), offset_from: from, offset_to: to, position: i, position_length: 1 };
        tokens.push(t);
        i = i + 1;
    }
    tokens
}

} // verus!
