//! The metadata file kept beside a vector index: a version line `v1`, the
//! next internal id, then one line `internal_id<TAB>doc_id` per stored
//! vector. Files of the older form start directly with the next id.
//! Unsigned numbers are read as `str::parse` reads them.

use vstd::prelude::*;
use crate::config::StorageError;
use crate::encoding::utf8;
use crate::external::{utf8_lossy, utf8_lossy_string};
use vstd::utf8::{decode_utf8, valid_utf8};

verus! {

/// The version the metadata file is written with.
pub const VECTOR_META_VERSION: u32 = 1;

/// Position of the first byte `x`.
pub open spec fn first_index_of(b: Seq<u8>, x: u8) -> Option<int>
    decreases b.len(),
{
    if b.len() == 0 {
        None
    } else if b[0] == x {
        Some(0)
    } else {
        match first_index_of(b.drop_first(), x) {
            Some(i) => Some(i + 1),
            None => None,
        }
    }
}

/// A line without the carriage return that ended it.
pub open spec fn strip_cr(l: Seq<u8>) -> Seq<u8> {
    if l.len() > 0 && l.last() == 13u8 {
        l.drop_last()
    } else {
        l
    }
}

/// The lines of a text as a buffered reader gives them: split at line
/// feeds, each without its `\n` or `\r\n`; a last line without line feed
/// is kept as it is; nothing follows a final line feed.
pub open spec fn byte_lines(b: Seq<u8>) -> Seq<Seq<u8>>
    decreases b.len(),
{
    if b.len() == 0 {
        seq![]
    } else {
        match first_index_of(b, 10u8) {
            Some(i) => if 0 <= i < b.len() {
                seq![strip_cr(b.take(i))] + byte_lines(b.skip(i + 1))
            } else {
                seq![]
            },
            None => seq![b],
        }
    }
}

/// Why a text is not an unsigned number.
#[derive(Clone, Copy, PartialEq, Eq, Structural, Debug)]
pub enum IntParseError {
    /// The text is empty.
    Empty,
    /// A character is not a digit (a lone `+` counts as one).
    InvalidDigit,
    /// The number is too large for its type.
    Overflow,
}

/// ASCII digit.
pub open spec fn is_digit(c: u8) -> bool {
    48 <= c <= 57
}

/// Reads digits after `acc` from the front: the first non-digit or the
/// first digit that takes the value past `max` is an error.
pub open spec fn scan_digits(d: Seq<u8>, acc: nat, max: nat) -> Result<nat, IntParseError>
    decreases d.len(),
{
    if d.len() == 0 {
        Ok(acc)
    } else if !is_digit(d[0]) {
        Err(IntParseError::InvalidDigit)
    } else {
        let a = acc * 10 + (d[0] - 48) as nat;
        if a > max {
            Err(IntParseError::Overflow)
        } else {
            scan_digits(d.drop_first(), a, max)
        }
    }
}

/// An unsigned number of at most `max`: an optional `+`, then digits.
pub open spec fn spec_parse_unsigned(b: Seq<u8>, max: nat) -> Result<nat, IntParseError> {
    if b.len() == 0 {
        Err(IntParseError::Empty)
    } else if b[0] == 43u8 {
        if b.len() == 1 {
            Err(IntParseError::InvalidDigit)
        } else {
            scan_digits(b.drop_first(), 0, max)
        }
    } else {
        scan_digits(b, 0, max)
    }
}

/// The text of bytes: decoded when valid UTF-8, else as the lossy decoding
/// gives it.
pub open spec fn text_of(b: Seq<u8>) -> Seq<char> {
    if valid_utf8(b) {
        decode_utf8(b)
    } else {
        utf8_lossy(b)
    }
}

/// Which number of the file could not be read.
#[derive(Clone, Copy, PartialEq, Eq, Structural, Debug)]
pub enum MetaError {
    Version(IntParseError),
    NextId(IntParseError),
    InternalId(IntParseError),
}

/// The entries of the id lines: lines without a tab are passed over; in
/// the others the internal id comes before the first tab, the document id
/// after it.
pub open spec fn spec_meta_entries(lines: Seq<Seq<u8>>) -> Result<Seq<(u64, Seq<char>)>, IntParseError>
    decreases lines.len(),
{
    if lines.len() == 0 {
        Ok(seq![])
    } else {
        let l = lines[0];
        let rest = spec_meta_entries(lines.drop_first());
        match first_index_of(l, 9u8) {
            None => rest,
            Some(i) => match spec_parse_unsigned(l.take(i), u64::MAX as nat) {
                Err(e) => Err(e),
                Ok(n) => match rest {
                    Ok(es) => Ok(seq![(n as u64, text_of(l.skip(i + 1)))] + es),
                    Err(e) => Err(e),
                },
            },
        }
    }
}

/// The entries and next id of the id lines after the header.
pub open spec fn spec_meta_body(next: nat, lines: Seq<Seq<u8>>) -> Result<(Seq<(u64, Seq<char>)>, u64), MetaError> {
    match spec_meta_entries(lines) {
        Ok(es) => Ok((es, next as u64)),
        Err(e) => Err(MetaError::InternalId(e)),
    }
}

/// What a metadata file holds: its entries in file order and the next
/// internal id; nothing (and next id 0) for an empty file or a versioned
/// file without next-id line.
pub open spec fn spec_parse_meta(b: Seq<u8>) -> Result<(Seq<(u64, Seq<char>)>, u64), MetaError> {
    let lines = byte_lines(b);
    if lines.len() == 0 {
        Ok((seq![], 0))
    } else if lines[0].len() > 0 && lines[0][0] == 118u8 {
        match spec_parse_unsigned(lines[0].drop_first(), u32::MAX as nat) {
            Err(e) => Err(MetaError::Version(e)),
            Ok(_) => if lines.len() < 2 {
                Ok((seq![], 0))
            } else {
                match spec_parse_unsigned(lines[1], u64::MAX as nat) {
                    Err(e) => Err(MetaError::NextId(e)),
                    Ok(n) => spec_meta_body(n, lines.skip(2)),
                }
            },
        }
    } else {
        match spec_parse_unsigned(lines[0], u64::MAX as nat) {
            Err(e) => Err(MetaError::NextId(e)),
            Ok(n) => spec_meta_body(n, lines.skip(1)),
        }
    }
}

/// The decimal digits of `n` as ASCII bytes.
pub open spec fn ascii_decimal(n: nat) -> Seq<u8>
    decreases n,
{
    if n < 10 {
        seq![(48 + n) as u8]
    } else {
        ascii_decimal(n / 10).push((48 + n % 10) as u8)
    }
}

/// The id line of an entry: `internal_id<TAB>doc_id`.
pub open spec fn spec_meta_line(e: (u64, Seq<char>)) -> Seq<u8> {
    ascii_decimal(e.0 as nat) + seq![9u8] + utf8(e.1)
}

/// The id lines of the entries, each ended by a line feed.
pub open spec fn spec_meta_lines(entries: Seq<(u64, Seq<char>)>) -> Seq<u8>
    decreases entries.len(),
{
    if entries.len() == 0 {
        seq![]
    } else {
        spec_meta_line(entries[0]) + seq![10u8] + spec_meta_lines(entries.drop_first())
    }
}

proof fn lemma_meta_lines_push(es: Seq<(u64, Seq<char>)>, e: (u64, Seq<char>))
    ensures
        spec_meta_lines(es.push(e)) == spec_meta_lines(es) + spec_meta_line(e) + seq![10u8],
    decreases es.len(),
{
    if es.len() == 0 {
        assert(es.push(e).drop_first() =~= Seq::<(u64, Seq<char>)>::empty());
        assert(es.push(e)[0] == e);
        assert(spec_meta_lines(Seq::<(u64, Seq<char>)>::empty()) =~= Seq::<u8>::empty());
        assert(spec_meta_lines(es) =~= Seq::<u8>::empty());
        assert(spec_meta_lines(es.push(e)) =~= spec_meta_lines(es) + spec_meta_line(e) + seq![10u8]);
    } else {
        assert(es.push(e).drop_first() =~= es.drop_first().push(e));
        assert(es.push(e)[0] == es[0]);
        lemma_meta_lines_push(es.drop_first(), e);
        assert(spec_meta_lines(es.push(e)) =~= spec_meta_lines(es) + spec_meta_line(e) + seq![10u8]);
    }
}

/// The bytes of a metadata file.
pub open spec fn spec_encode_meta(next_id: u64, entries: Seq<(u64, Seq<char>)>) -> Seq<u8> {
    seq![118u8] + ascii_decimal(VECTOR_META_VERSION as nat) + seq![10u8] + ascii_decimal(next_id as nat) + seq![10u8]
        + spec_meta_lines(entries)
}

/// Appends the decimal digits of `n`.
fn push_ascii_decimal(buf: &mut Vec<u8>, n: u64)
    ensures
        final(buf)@ == old(buf)@ + ascii_decimal(n as nat),
    decreases n,
{
    if n >= 10 {
        push_ascii_decimal(buf, n / 10);
    }
    buf.push((48 + n % 10) as u8);
    assert(old(buf)@ + ascii_decimal(n as nat) =~= if n >= 10 {
        old(buf)@ + ascii_decimal((n / 10) as nat) + seq![(48 + n % 10) as u8]
    } else {
        old(buf)@ + seq![(48 + n % 10) as u8]
    });
}

/// The bytes of the metadata file of a vector index with the given next
/// internal id and entries (internal id, document id).
pub fn encode_vector_meta(next_id: u64, entries: &Vec<(u64, String)>) -> (r: Vec<u8>)
    ensures
        r@ == spec_encode_meta(next_id, entry_views(entries@)),
{
    let ghost ev = entry_views(entries@);
    let mut buf: Vec<u8> = Vec::new();
    buf.push(118u8);
    push_ascii_decimal(&mut buf, VECTOR_META_VERSION as u64);
    buf.push(10u8);
    push_ascii_decimal(&mut buf, next_id);
    buf.push(10u8);
    let ghost head = buf@;
    assert(ev.take(0) =~= Seq::<(u64, Seq<char>)>::empty());
    let mut i: usize = 0;
    while i < entries.len()
        invariant
            i <= entries@.len(),
            ev == entry_views(entries@),
            buf@ == head + spec_meta_lines(ev.take(i as int)),
        decreases entries@.len() - i,
    {
        assert(ev.take(i + 1) =~= ev.take(i as int).push(ev[i as int]));
        proof {
            lemma_meta_lines_push(ev.take(i as int), ev[i as int]);
        }
        let ghost b0 = buf@;
        push_ascii_decimal(&mut buf, entries[i].0);
        buf.push(9u8);
        crate::bytes::extend_bytes(&mut buf, entries[i].1.as_str().as_bytes());
        buf.push(10u8);
        proof {
            vstd::utf8::encode_utf8_decode_utf8(entries@[i as int].1@);
        }
        assert(buf@ =~= head + spec_meta_lines(ev.take(i + 1)));
        i = i + 1;
    }
    assert(ev.take(entries@.len() as int) =~= ev);
    buf
}

/// The views of (internal id, document id) entries.
pub open spec fn entry_views(es: Seq<(u64, String)>) -> Seq<(u64, Seq<char>)> {
    es.map_values(|e: (u64, String)| (e.0, e.1@))
}

/// The message std gives for each reason.
pub open spec fn int_error_message(e: IntParseError) -> Seq<char> {
    match e {
        IntParseError::Empty => "cannot parse integer from empty string"@,
        IntParseError::InvalidDigit => "invalid digit found in string"@,
        IntParseError::Overflow => "number too large to fit in target type"@,
    }
}

/// The message of a reason a number could not be read.
pub fn int_error_text(e: IntParseError) -> (r: &'static str)
    ensures
        r@ == int_error_message(e),
{
    match e {
        IntParseError::Empty => "cannot parse integer from empty string",
        IntParseError::InvalidDigit => "invalid digit found in string",
        IntParseError::Overflow => "number too large to fit in target type",
    }
}

/// Reads an unsigned number of at most `max`.
pub fn parse_unsigned(b: &[u8], max: u64) -> (r: Result<u64, IntParseError>)
    ensures
        match spec_parse_unsigned(b@, max as nat) {
            Ok(n) => r == Ok::<u64, IntParseError>(n as u64) && n <= max,
            Err(e) => r == Err::<u64, IntParseError>(e),
        },
{
    if b.len() == 0 {
        return Err(IntParseError::Empty);
    }
    let mut i: usize = 0;
    if b[0] == 43u8 {
        if b.len() == 1 {
            return Err(IntParseError::InvalidDigit);
        }
        i = 1;
    }
    let ghost d = b@.skip(i as int);
    assert(d =~= if b@[0] == 43u8 { b@.drop_first() } else { b@ });
    let mut acc: u64 = 0;
    while i < b.len()
        invariant
            1 <= b@.len(),
            i <= b@.len(),
            d == (if b@[0] == 43u8 { b@.drop_first() } else { b@ }),
            acc <= max,
            scan_digits(d, 0, max as nat) == scan_digits(b@.skip(i as int), acc as nat, max as nat),
        decreases b@.len() - i,
    {
        let c = b[i];
        assert(b@.skip(i as int)[0] == c);
        assert(b@.skip(i as int).drop_first() =~= b@.skip(i + 1));
        if c < 48u8 || c > 57u8 {
            return Err(IntParseError::InvalidDigit);
        }
        let a: u128 = (acc as u128) * 10 + ((c - 48u8) as u128);
        if a > max as u128 {
            return Err(IntParseError::Overflow);
        }
        acc = a as u64;
        i = i + 1;
    }
    assert(b@.skip(i as int) =~= Seq::<u8>::empty());
    Ok(acc)
}

/// The lines of a text (see `byte_lines`).
pub fn split_lines(b: &[u8]) -> (r: Vec<Vec<u8>>)
    ensures
        r@.map_values(|l: Vec<u8>| l@) == byte_lines(b@),
{
    let mut r: Vec<Vec<u8>> = Vec::new();
    let mut start: usize = 0;
    let mut i: usize = 0;
    assert(b@.skip(0) =~= b@);
    assert(r@.map_values(|l: Vec<u8>| l@) + byte_lines(b@) =~= byte_lines(b@));
    while i < b.len()
        invariant
            start <= i <= b@.len(),
            forall|k: int| start <= k < i ==> b@[k] != 10u8,
            r@.map_values(|l: Vec<u8>| l@) + byte_lines(b@.skip(start as int)) == byte_lines(b@),
        decreases b@.len() - i,
    {
        if b[i] == 10u8 {
            let ghost s = b@.skip(start as int);
            proof {
                lemma_first_index_at(s, 10u8, i - start);
                assert(s.take(i - start) =~= b@.subrange(start as int, i as int));
                assert(s.skip(i - start + 1) =~= b@.skip(i + 1));
            }
            let line = vstd::slice::slice_to_vec(vstd::slice::slice_subrange(b, start, i));
            let stripped = if line.len() > 0 && line[line.len() - 1] == 13u8 {
                let mut l = line;
                l.pop();
                l
            } else {
                line
            };
            let ghost r0 = r@.map_values(|l: Vec<u8>| l@);
            r.push(stripped);
            assert(r@.map_values(|l: Vec<u8>| l@) =~= r0.push(strip_cr(b@.subrange(start as int, i as int))));
            assert(r0.push(strip_cr(b@.subrange(start as int, i as int))) + byte_lines(b@.skip(i + 1)) =~= r0
                + byte_lines(s));
            start = i + 1;
        }
        i = i + 1;
    }
    if start < b.len() {
        let ghost s = b@.skip(start as int);
        proof {
            lemma_first_index_none(s, 10u8);
        }
        let line = vstd::slice::slice_to_vec(vstd::slice::slice_subrange(b, start, b.len()));
        let ghost r0 = r@.map_values(|l: Vec<u8>| l@);
        r.push(line);
        assert(s =~= b@.subrange(start as int, b@.len() as int));
        assert(r@.map_values(|l: Vec<u8>| l@) =~= r0 + byte_lines(s));
    } else {
        assert(b@.skip(start as int) =~= Seq::<u8>::empty());
        assert(r@.map_values(|l: Vec<u8>| l@) =~= r@.map_values(|l: Vec<u8>| l@) + byte_lines(b@.skip(start as int)));
    }
    r
}

proof fn lemma_first_index_at(s: Seq<u8>, x: u8, k: int)
    requires
        0 <= k < s.len(),
        s[k] == x,
        forall|j: int| 0 <= j < k ==> s[j] != x,
    ensures
        first_index_of(s, x) == Some(k),
    decreases k,
{
    if k > 0 {
        lemma_first_index_at(s.drop_first(), x, k - 1);
    }
}

proof fn lemma_first_index_none(s: Seq<u8>, x: u8)
    requires
        forall|j: int| 0 <= j < s.len() ==> s[j] != x,
    ensures
        first_index_of(s, x) is None,
    decreases s.len(),
{
    if s.len() > 0 {
        lemma_first_index_none(s.drop_first(), x);
    }
}

/// Position of the first tab of a line.
fn find_tab(l: &Vec<u8>) -> (r: Option<usize>)
    ensures
        r matches Some(t) ==> first_index_of(l@, 9u8) == Some(t as int) && t < l@.len(),
        r is None ==> first_index_of(l@, 9u8) is None,
{
    let mut i: usize = 0;
    while i < l.len()
        invariant
            i <= l@.len(),
            forall|j: int| 0 <= j < i ==> l@[j] != 9u8,
        decreases l@.len() - i,
    {
        if l[i] == 9u8 {
            proof {
                lemma_first_index_at(l@, 9u8, i as int);
            }
            return Some(i);
        }
        i = i + 1;
    }
    proof {
        lemma_first_index_none(l@, 9u8);
    }
    None
}

fn meta_error(prefix: &str, e: IntParseError) -> (r: StorageError)
    ensures
        r matches StorageError::Io(m) && m@ == prefix@ + int_error_message(e),
{
    let mut m = String::from_str(prefix);
    m.append(int_error_text(e));
    StorageError::Io(m)
}

/// The message prefix of each number of the file.
pub open spec fn meta_error_message(e: MetaError) -> Seq<char> {
    match e {
        MetaError::Version(k) => "Failed to parse HNSW metadata version: "@ + int_error_message(k),
        MetaError::NextId(k) => "Failed to parse HNSW next_id: "@ + int_error_message(k),
        MetaError::InternalId(k) => "Failed to parse HNSW internal_id: "@ + int_error_message(k),
    }
}

/// Reads the id lines from line `k` on.
fn parse_entries(lines: &Vec<Vec<u8>>, k: usize) -> (r: Result<Vec<(u64, String)>, IntParseError>)
    requires
        k <= lines@.len(),
    ensures
        match spec_meta_entries(lines@.map_values(|l: Vec<u8>| l@).skip(k as int)) {
            Ok(es) => r matches Ok(v) && entry_views(v@) == es,
            Err(e) => r == Err::<Vec<(u64, String)>, IntParseError>(e),
        },
{
    let ghost lv = lines@.map_values(|l: Vec<u8>| l@);
    let mut out: Vec<(u64, String)> = Vec::new();
    let mut i: usize = k;
    proof {
        assert(lv.skip(k as int).take(0) =~= Seq::<Seq<u8>>::empty());
        assert(entry_views(out@) =~= Seq::<(u64, Seq<char>)>::empty());
        assert(spec_meta_entries(Seq::<Seq<u8>>::empty()) == Ok::<Seq<(u64, Seq<char>)>, IntParseError>(Seq::empty()));
    }
    while i < lines.len()
        invariant
            k <= i <= lines@.len(),
            lv == lines@.map_values(|l: Vec<u8>| l@),
            spec_meta_entries(lv.skip(k as int).take(i - k)) == Ok::<Seq<(u64, Seq<char>)>, IntParseError>(entry_views(out@)),
        decreases lines@.len() - i,
    {
        let l = &lines[i];
        let ghost pre = lv.skip(k as int).take(i - k);
        proof {
            assert(lv.skip(k as int).take(i - k + 1) =~= pre.push(l@));
            lemma_entries_push(pre, l@);
        }
        match find_tab(l) {
            None => {},
            Some(t) => {
                assert(first_index_of(l@, 9u8) == Some(t as int));
                let ln = l.len();
                assert(t < ln);
                let head = vstd::slice::slice_subrange(l.as_slice(), 0, t);
                assert(head@ =~= l@.take(t as int));
                match parse_unsigned(head, u64::MAX) {
                    Err(e) => {
                        proof {
                            assert(spec_meta_entries(pre.push(l@)) == Err::<Seq<(u64, Seq<char>)>, IntParseError>(e));
                            assert(lv.skip(k as int).take(i - k + 1) == pre.push(l@));
                            lemma_entries_error_extends(lv.skip(k as int), i - k);
                        }
                        return Err(e);
                    },
                    Ok(n) => {
                        let tail = vstd::slice::slice_subrange(l.as_slice(), t + 1, ln);
                        assert(tail@ =~= l@.skip(t + 1));
                        let doc = utf8_lossy_string(tail);
                        let ghost o0 = entry_views(out@);
                        out.push((n, doc));
                        assert(entry_views(out@) =~= o0 + seq![(n, text_of(l@.skip(t + 1)))]);
                    },
                }
            },
        }
        i = i + 1;
    }
    assert(lv.skip(k as int).take(i - k) =~= lv.skip(k as int));
    Ok(out)
}

/// Reads a metadata file (see `spec_parse_meta`); a number that cannot be
/// read is an I/O error naming it.
pub fn parse_vector_meta(text: &str) -> (r: Result<(Vec<(u64, String)>, u64), StorageError>)
    ensures
        match spec_parse_meta(utf8(text@)) {
            Ok((es, next)) => r matches Ok((v, n)) && entry_views(v@) == es && n == next,
            Err(e) => r matches Err(StorageError::Io(m)) && m@ == meta_error_message(e),
        },
{
    let b = text.as_bytes();
    proof {
        vstd::utf8::encode_utf8_decode_utf8(text@);
        assert(b@ == utf8(text@));
    }
    let lines = split_lines(b);
    let ghost lv = lines@.map_values(|l: Vec<u8>| l@);
    if lines.len() == 0 {
        return Ok((Vec::new(), 0));
    }
    assert(lv[0] == lines@[0]@);
    let first = &lines[0];
    let (next, body) = if first.len() > 0 && first[0] == 118u8 {
        let version = vstd::slice::slice_subrange(first.as_slice(), 1, first.len());
        assert(version@ =~= lv[0].drop_first());
        match parse_unsigned(version, 4294967295u64) {
            Err(e) => {
                return Err(meta_error("Failed to parse HNSW metadata version: ", e));
            },
            Ok(_) => {},
        }
        if lines.len() < 2 {
            return Ok((Vec::new(), 0));
        }
        assert(lv[1] == lines@[1]@);
        match parse_unsigned(lines[1].as_slice(), u64::MAX) {
            Err(e) => {
                return Err(meta_error("Failed to parse HNSW next_id: ", e));
            },
            Ok(n) => (n, 2usize),
        }
    } else {
        match parse_unsigned(first.as_slice(), u64::MAX) {
            Err(e) => {
                return Err(meta_error("Failed to parse HNSW next_id: ", e));
            },
            Ok(n) => (n, 1usize),
        }
    };
    match parse_entries(&lines, body) {
        Ok(es) => Ok((es, next)),
        Err(e) => Err(meta_error("Failed to parse HNSW internal_id: ", e)),
    }
}

/// Reading one more line extends the entries read so far.
proof fn lemma_entries_push(pre: Seq<Seq<u8>>, l: Seq<u8>)
    ensures
        spec_meta_entries(pre.push(l)) == match spec_meta_entries(pre) {
            Err(e) => Err(e),
            Ok(es) => match first_index_of(l, 9u8) {
                None => Ok(es),
                Some(i) => match spec_parse_unsigned(l.take(i), u64::MAX as nat) {
                    Err(e) => Err(e),
                    Ok(n) => Ok(es + seq![(n as u64, text_of(l.skip(i + 1)))]),
                },
            },
        },
    decreases pre.len(),
{
    let p = pre.push(l);
    assert(p[p.len() - 1] == l);
    if pre.len() == 0 {
        assert(p.drop_first() =~= Seq::<Seq<u8>>::empty());
        assert(p[0] == l);
        assert(spec_meta_entries(Seq::<Seq<u8>>::empty()) == Ok::<Seq<(u64, Seq<char>)>, IntParseError>(Seq::empty()));
        match first_index_of(l, 9u8) {
            None => {},
            Some(i) => match spec_parse_unsigned(l.take(i), u64::MAX as nat) {
                Err(e) => {},
                Ok(n) => {
                    let x = seq![(n as u64, text_of(l.skip(i + 1)))];
                    assert(x + Seq::<(u64, Seq<char>)>::empty() =~= Seq::<(u64, Seq<char>)>::empty() + x);
                },
            },
        }
    } else {
        assert(p.drop_first() =~= pre.drop_first().push(l));
        assert(p[0] == pre[0]);
        lemma_entries_push(pre.drop_first(), l);
        match first_index_of(pre[0], 9u8) {
            None => {},
            Some(i) => match spec_parse_unsigned(pre[0].take(i), u64::MAX as nat) {
                Err(e) => {},
                Ok(n) => {
                    let x = seq![(n as u64, text_of(pre[0].skip(i + 1)))];
                    match spec_meta_entries(pre.drop_first()) {
                        Err(e) => {},
                        Ok(es) => {
                            match first_index_of(l, 9u8) {
                                None => {},
                                Some(j) => match spec_parse_unsigned(l.take(j), u64::MAX as nat) {
                                    Err(e) => {},
                                    Ok(m) => {
                                        let y = seq![(m as u64, text_of(l.skip(j + 1)))];
                                        assert(x + (es + y) =~= (x + es) + y);
                                    },
                                },
                            }
                        },
                    }
                },
            },
        }
    }
}

/// The entries of all lines split at any point: an error in the first part
/// is the error of the whole.
proof fn lemma_entries_split(lines: Seq<Seq<u8>>, j: int)
    requires
        0 <= j <= lines.len(),
    ensures
        spec_meta_entries(lines.take(j)) matches Err(e) ==> spec_meta_entries(lines) == Err::<Seq<(u64, Seq<char>)>, IntParseError>(e),
        spec_meta_entries(lines.take(j)) matches Ok(es1) ==> match spec_meta_entries(lines.skip(j)) {
            Ok(es2) => spec_meta_entries(lines) == Ok::<Seq<(u64, Seq<char>)>, IntParseError>(es1 + es2),
            Err(e) => spec_meta_entries(lines) == Err::<Seq<(u64, Seq<char>)>, IntParseError>(e),
        },
    decreases j,
{
    if j == 0 {
        assert(lines.take(0) =~= Seq::<Seq<u8>>::empty());
        assert(lines.skip(0) =~= lines);
        match spec_meta_entries(lines) {
            Ok(es2) => { assert(Seq::<(u64, Seq<char>)>::empty() + es2 =~= es2); },
            Err(_) => {},
        }
    } else {
        let t = lines.drop_first();
        lemma_entries_split(t, j - 1);
        assert(lines.take(j).drop_first() =~= t.take(j - 1));
        assert(lines.skip(j) =~= t.skip(j - 1));
        assert(lines.take(j)[0] == lines[0]);
        match first_index_of(lines[0], 9u8) {
            None => {},
            Some(i) => match spec_parse_unsigned(lines[0].take(i), u64::MAX as nat) {
                Err(e) => {},
                Ok(n) => {
                    let x = seq![(n as u64, text_of(lines[0].skip(i + 1)))];
                    match spec_meta_entries(t.take(j - 1)) {
                        Err(_) => {},
                        Ok(es1) => match spec_meta_entries(t.skip(j - 1)) {
                            Ok(es2) => { assert(x + (es1 + es2) =~= (x + es1) + es2); },
                            Err(_) => {},
                        },
                    }
                },
            },
        }
    }
}

/// An error among the first `j + 1` lines is the error of all of them.
proof fn lemma_entries_error_extends(lines: Seq<Seq<u8>>, j: int)
    requires
        0 <= j < lines.len(),
        spec_meta_entries(lines.take(j)) is Ok,
        spec_meta_entries(lines.take(j + 1)) is Err,
    ensures
        spec_meta_entries(lines) == spec_meta_entries(lines.take(j + 1)),
{
    lemma_entries_split(lines, j + 1);
}

/// The value of digits read from the front after `acc`.
pub open spec fn fold_digits(d: Seq<u8>, acc: nat) -> nat
    decreases d.len(),
{
    if d.len() == 0 {
        acc
    } else {
        fold_digits(d.drop_first(), acc * 10 + (d[0] - 48) as nat)
    }
}

pub open spec fn all_digits(d: Seq<u8>) -> bool {
    forall|i: int| 0 <= i < d.len() ==> is_digit(#[trigger] d[i])
}

proof fn lemma_fold_at_least(d: Seq<u8>, acc: nat)
    requires
        all_digits(d),
    ensures
        fold_digits(d, acc) >= acc,
    decreases d.len(),
{
    if d.len() > 0 {
        assert(is_digit(d[0]));
        lemma_fold_at_least(d.drop_first(), acc * 10 + (d[0] - 48) as nat);
    }
}

proof fn lemma_scan_ok(d: Seq<u8>, acc: nat, max: nat)
    requires
        all_digits(d),
        fold_digits(d, acc) <= max,
    ensures
        scan_digits(d, acc, max) == Ok::<nat, IntParseError>(fold_digits(d, acc)),
    decreases d.len(),
{
    if d.len() > 0 {
        assert(is_digit(d[0]));
        let a = acc * 10 + (d[0] - 48) as nat;
        assert(all_digits(d.drop_first())) by {
            assert forall|i: int| 0 <= i < d.drop_first().len() implies is_digit(#[trigger] d.drop_first()[i]) by {
                assert(d.drop_first()[i] == d[i + 1]);
            }
        }
        lemma_fold_at_least(d.drop_first(), a);
        lemma_scan_ok(d.drop_first(), a, max);
    }
}

proof fn lemma_fold_push(d: Seq<u8>, x: u8, acc: nat)
    ensures
        fold_digits(d.push(x), acc) == fold_digits(d, acc) * 10 + (x - 48) as nat,
    decreases d.len(),
{
    if d.len() == 0 {
        assert(d.push(x).drop_first() =~= Seq::<u8>::empty());
        assert(d.push(x)[0] == x);
        assert(fold_digits(Seq::<u8>::empty(), acc * 10 + (x - 48) as nat) == acc * 10 + (x - 48) as nat);
        assert(fold_digits(d, acc) == acc);
    } else {
        assert(d.push(x).drop_first() =~= d.drop_first().push(x));
        assert(d.push(x)[0] == d[0]);
        lemma_fold_push(d.drop_first(), x, acc * 10 + (d[0] - 48) as nat);
    }
}

/// The digits of `n` are ASCII digits and read back as `n`.
proof fn lemma_ascii_decimal(n: nat)
    ensures
        ascii_decimal(n).len() > 0,
        all_digits(ascii_decimal(n)),
        fold_digits(ascii_decimal(n), 0) == n,
    decreases n,
{
    if n < 10 {
        let d = ascii_decimal(n);
        assert(d.drop_first() =~= Seq::<u8>::empty());
        assert(d[0] - 48 == n);
        assert(fold_digits(Seq::<u8>::empty(), n) == n);
        assert(all_digits(d)) by {
            assert forall|i: int| 0 <= i < d.len() implies is_digit(#[trigger] d[i]) by {}
        }
    } else {
        lemma_ascii_decimal(n / 10);
        let p = ascii_decimal(n / 10);
        let x = (48 + n % 10) as u8;
        lemma_fold_push(p, x, 0);
        assert(x - 48 == n % 10);
        assert((n / 10) * 10 + n % 10 == n) by (nonlinear_arith);
        assert(all_digits(p.push(x))) by {
            assert forall|i: int| 0 <= i < p.push(x).len() implies is_digit(#[trigger] p.push(x)[i]) by {
                if i < p.len() {
                    assert(p.push(x)[i] == p[i]);
                }
            }
        }
    }
}

/// Decimal digits of a number within `max` parse back as it.
proof fn lemma_parse_decimal(n: nat, max: nat)
    requires
        n <= max,
    ensures
        spec_parse_unsigned(ascii_decimal(n), max) == Ok::<nat, IntParseError>(n),
{
    lemma_ascii_decimal(n);
    let d = ascii_decimal(n);
    assert(is_digit(d[0]));
    lemma_scan_ok(d, 0, max);
}

proof fn lemma_no_byte_in_digits(d: Seq<u8>, x: u8)
    requires
        all_digits(d),
        !is_digit(x),
    ensures
        forall|j: int| 0 <= j < d.len() ==> d[j] != x,
{
    assert forall|j: int| 0 <= j < d.len() implies d[j] != x by {
        assert(is_digit(d[j]));
    }
}

/// A line ended by a line feed is split off as the first line.
proof fn lemma_lines_cons(a: Seq<u8>, rest: Seq<u8>)
    requires
        forall|j: int| 0 <= j < a.len() ==> a[j] != 10u8,
    ensures
        byte_lines(a + seq![10u8] + rest) == seq![strip_cr(a)] + byte_lines(rest),
{
    let b = a + seq![10u8] + rest;
    lemma_first_index_at(b, 10u8, a.len() as int);
    assert(b.take(a.len() as int) =~= a);
    assert(b.skip(a.len() + 1 as int) =~= rest);
}

/// Conditions under which an entry's line reads back as it: its document
/// id, in UTF-8, has no line feed and does not end with a carriage return.
pub open spec fn line_safe_id(doc: Seq<char>) -> bool {
    &&& forall|j: int| 0 <= j < utf8(doc).len() ==> #[trigger] utf8(doc)[j] != 10u8
    &&& (utf8(doc).len() > 0 ==> utf8(doc).last() != 13u8)
}

proof fn lemma_line_parts(e: (u64, Seq<char>))
    requires
        line_safe_id(e.1),
    ensures
        forall|j: int| 0 <= j < spec_meta_line(e).len() ==> #[trigger] spec_meta_line(e)[j] != 10u8,
        strip_cr(spec_meta_line(e)) == spec_meta_line(e),
        first_index_of(spec_meta_line(e), 9u8) == Some(ascii_decimal(e.0 as nat).len() as int),
        spec_meta_line(e).take(ascii_decimal(e.0 as nat).len() as int) == ascii_decimal(e.0 as nat),
        spec_meta_line(e).skip(ascii_decimal(e.0 as nat).len() + 1 as int) == utf8(e.1),
{
    let d = ascii_decimal(e.0 as nat);
    let l = spec_meta_line(e);
    lemma_ascii_decimal(e.0 as nat);
    lemma_no_byte_in_digits(d, 10u8);
    lemma_no_byte_in_digits(d, 9u8);
    assert forall|j: int| 0 <= j < l.len() implies #[trigger] l[j] != 10u8 by {
        if j < d.len() {
            assert(l[j] == d[j]);
        } else if j > d.len() {
            assert(l[j] == utf8(e.1)[j - d.len() - 1]);
        }
    }
    assert(l.last() != 13u8) by {
        if utf8(e.1).len() > 0 {
            assert(l.last() == utf8(e.1).last());
        }
    }
    lemma_first_index_at(l, 9u8, d.len() as int);
    assert(l.take(d.len() as int) =~= d);
    assert(l.skip(d.len() + 1 as int) =~= utf8(e.1));
}

proof fn lemma_lines_of_entries(es: Seq<(u64, Seq<char>)>)
    requires
        forall|i: int| 0 <= i < es.len() ==> line_safe_id(#[trigger] es[i].1),
    ensures
        spec_meta_entries(byte_lines(spec_meta_lines(es))) == Ok::<Seq<(u64, Seq<char>)>, IntParseError>(es),
    decreases es.len(),
{
    if es.len() == 0 {
        assert(byte_lines(Seq::<u8>::empty()) =~= Seq::<Seq<u8>>::empty());
        assert(spec_meta_lines(es) =~= Seq::<u8>::empty());
        assert(es =~= Seq::<(u64, Seq<char>)>::empty());
        assert(spec_meta_entries(Seq::<Seq<u8>>::empty()) == Ok::<Seq<(u64, Seq<char>)>, IntParseError>(Seq::empty()));
    } else {
        let e = es[0];
        let t = es.drop_first();
        assert(line_safe_id(es[0].1));
        assert forall|i: int| 0 <= i < t.len() implies line_safe_id(#[trigger] t[i].1) by {
            assert(t[i] == es[i + 1]);
            assert(line_safe_id(es[i + 1].1));
        }
        lemma_line_parts(e);
        lemma_lines_cons(spec_meta_line(e), spec_meta_lines(t));
        lemma_lines_of_entries(t);
        let ls = byte_lines(spec_meta_lines(es));
        assert(ls[0] == spec_meta_line(e));
        assert(ls.drop_first() =~= byte_lines(spec_meta_lines(t)));
        let d = ascii_decimal(e.0 as nat);
        lemma_parse_decimal(e.0 as nat, u64::MAX as nat);
        vstd::utf8::encode_utf8_valid_utf8(e.1);
        vstd::utf8::encode_utf8_decode_utf8(e.1);
        assert(text_of(utf8(e.1)) == e.1);
        assert(seq![(e.0, e.1)] + t =~= es);
    }
}

/// A metadata file reads back as the next id and entries it was written
/// from, when no document id holds a line feed or ends with a carriage
/// return.
pub proof fn law_vector_meta_roundtrip(next_id: u64, entries: Seq<(u64, Seq<char>)>)
    requires
        forall|i: int| 0 <= i < entries.len() ==> line_safe_id(#[trigger] entries[i].1),
    ensures
        spec_parse_meta(spec_encode_meta(next_id, entries)) == Ok::<(Seq<(u64, Seq<char>)>, u64), MetaError>((entries, next_id)),
{
    let v = seq![118u8] + ascii_decimal(VECTOR_META_VERSION as nat);
    let n = ascii_decimal(next_id as nat);
    let body = spec_meta_lines(entries);
    lemma_ascii_decimal(VECTOR_META_VERSION as nat);
    lemma_ascii_decimal(next_id as nat);
    lemma_no_byte_in_digits(ascii_decimal(VECTOR_META_VERSION as nat), 10u8);
    lemma_no_byte_in_digits(n, 10u8);
    lemma_no_byte_in_digits(n, 13u8);
    assert forall|j: int| 0 <= j < v.len() implies v[j] != 10u8 by {
        if j > 0 {
            assert(v[j] == ascii_decimal(VECTOR_META_VERSION as nat)[j - 1]);
        }
    }
    let e = spec_encode_meta(next_id, entries);
    assert(e =~= v + seq![10u8] + (n + seq![10u8] + body));
    lemma_lines_cons(v, n + seq![10u8] + body);
    lemma_lines_cons(n, body);
    let ls = byte_lines(e);
    assert(strip_cr(v) == v);
    assert(strip_cr(n) == n) by {
        assert(n.last() != 13u8);
    }
    assert(ls[0] == v);
    assert(ls[1] == n);
    assert(v.drop_first() =~= ascii_decimal(VECTOR_META_VERSION as nat));
    lemma_parse_decimal(VECTOR_META_VERSION as nat, u32::MAX as nat);
    lemma_parse_decimal(next_id as nat, u64::MAX as nat);
    assert(ls.skip(2) =~= byte_lines(body));
    lemma_lines_of_entries(entries);
}

} // verus!
