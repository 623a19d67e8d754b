//! Calls into outside crates and into parts of std that carry no
//! specification. Every item here is trusted: its contract is what the
//! called code's source or documentation shows, and nothing proves it.

use vstd::prelude::*;
use vstd::utf8::{decode_utf8, valid_utf8, is_char_boundary};
use vstd::string::*;
use crate::numeric::{all_digit_chars, decimal_value, plain_decimal_bytes};
use crate::value::decimal_text_ok;

verus! {

/// The sortable bytes that `decimal_bytes::Decimal::from_str` gives for a
/// text, or `None` where it refuses the text.
pub uninterp spec fn decimal_sortable_bytes(s: Seq<char>) -> Option<Seq<u8>>;

/// Texts on which the decimal parser's exponent arithmetic stays within
/// `i32`: at most 2^30 characters, and at most 9 characters after any
/// exponent marker. The parser adds the parsed exponent to a digit position
/// without an overflow check, so an exponent near the `i32` limits panics.
pub open spec fn decimal_parse_in_range(s: Seq<char>) -> bool {
    &&& s.len() <= 1073741824
    &&& forall|i: int|
        0 <= i < s.len() && (#[trigger] s[i] == 'e' || s[i] == 'E') ==> s.len() - i - 1 <= 9
}

/// Calls `decimal_bytes::Decimal::from_str` and hands back `as_bytes()` of the
/// result. Claimed: the result is the named sortable form of the text; an
/// accepted text never encodes to no bytes (`encode_decimal` always writes a
/// sign byte); the text `0` encodes to the single zero sign byte `0x80`;
/// and the display text of a decimal (`NaN`, `Infinity`, `-Infinity`, or an
/// optional `-` and a plain decimal) encodes as `plain_decimal_bytes` says:
/// `encode_decimal` writes the special bytes, or the sign byte, the biased
/// exponent and the significant digits packed two per byte, inverted for a
/// negative number, and refuses an exponent out of range. Left unsaid: what
/// the bytes are for any other text. The `requires` keeps out the texts
/// whose exponent would overflow the parser's `i32` sum.
#[verifier::external_body]
pub(crate) fn decimal_from_str_bytes(s: &str) -> (r: Option<Vec<u8>>)
    requires
        decimal_parse_in_range(s@),
    ensures
        r.deep_view() == decimal_sortable_bytes(s@),
        r.is_some() ==> r.unwrap()@.len() >= 1,
        s@ == seq!['0'] ==> r.is_some() && r.unwrap()@ == seq![0x80u8],
        decimal_text_ok(s@) ==> r.deep_view() == plain_decimal_bytes(s@),
{
    <decimal_bytes::Decimal as std::str::FromStr>::from_str(s).ok().map(|d| d.as_bytes().to_vec())
}

} // verus!

verus! {

/// What `String::from_utf8_lossy` gives for bytes that are not valid UTF-8.
pub uninterp spec fn utf8_lossy(b: Seq<u8>) -> Seq<char>;

/// Calls `String::from_utf8_lossy` and takes an owned `String`. Claimed: the
/// result is the named lossy decoding of the bytes, and for valid UTF-8 it is
/// the decoded text (std documents that valid input comes back unchanged).
/// Left unsaid: which replacement characters stand in an invalid input.
#[verifier::external_body]
pub(crate) fn utf8_lossy_string(b: &[u8]) -> (r: String)
    ensures
        r@ == utf8_lossy(b@),
        valid_utf8(b@) ==> r@ == decode_utf8(b@),
{
    String::from_utf8_lossy(b).to_string()
}

/// Calls `std::str::from_utf8` and takes an owned `String` of the text.
/// Claimed, as std documents: it succeeds exactly on valid UTF-8, and then
/// holds the decoded text.
#[verifier::external_body]
pub(crate) fn utf8_string(b: &[u8]) -> (r: Option<String>)
    ensures
        r.is_some() <==> valid_utf8(b@),
        r.is_some() ==> r.unwrap()@ == decode_utf8(b@),
{
    std::str::from_utf8(b).ok().map(|s| s.to_string())
}

} // verus!

verus! {

/// The 128-bit XXH3 hash (seed 0, default secret) of the bytes.
pub uninterp spec fn xxh3_128_of(data: Seq<u8>) -> u128;

/// Calls `xxhash_rust::xxh3::xxh3_128`. Claimed: the result is the named
/// hash of the bytes; what that number is, is left to the hash function.
#[verifier::external_body]
pub(crate) fn xxh3_128_hash(data: &[u8]) -> (h: u128)
    ensures
        h == xxh3_128_of(data@),
{
    xxhash_rust::xxh3::xxh3_128(data)
}

} // verus!

verus! {

/// The 64-bit hash that `xxhash_rust::xxh3::Xxh3DefaultBuilder` gives a text
/// key through `BuildHasher::hash_one`.
pub uninterp spec fn xxh3_key_hash(key: Seq<char>) -> u64;

/// Calls `BuildHasher::hash_one` of `xxhash_rust::xxh3::Xxh3DefaultBuilder`
/// (seed 0, default secret) on the key. Claimed: the result is the named
/// hash of the key's text; what that number is, is left to the hash
/// function and to how `str` feeds a hasher.
#[verifier::external_body]
pub(crate) fn xxh3_str_hash(key: &str) -> (h: u64)
    ensures
        h == xxh3_key_hash(key@),
{
    std::hash::BuildHasher::hash_one(&xxhash_rust::xxh3::Xxh3DefaultBuilder, key)
}

} // verus!

verus! {

/// The RFC 3339 text that chrono gives for a UTC instant of `ms`
/// milliseconds since the epoch, or `None` where chrono has no such instant.
pub uninterp spec fn rfc3339_of_millis(ms: i64) -> Option<Seq<char>>;

/// Calls `chrono::DateTime::from_timestamp_millis` and, on an instant,
/// `to_rfc3339` of it. Claimed: the result is the named text (or its
/// absence) for the argument; chrono's documentation gives `None` only for
/// instants out of its range, which is left unsaid here.
#[verifier::external_body]
pub(crate) fn millis_rfc3339(ms: i64) -> (r: Option<String>)
    ensures
        r.is_some() == rfc3339_of_millis(ms).is_some(),
        r.is_some() ==> r.unwrap()@ == rfc3339_of_millis(ms).unwrap(),
{
    match chrono::DateTime::from_timestamp_millis(ms) {
        Some(dt) => Some(dt.to_rfc3339()),
        None => None,
    }
}

} // verus!

verus! {

/// Whether every character is ASCII.
pub open spec fn all_ascii(s: Seq<char>) -> bool {
    forall|i: int| 0 <= i < s.len() ==> (#[trigger] s[i] as u32) < 128
}

/// ASCII upper-case letters mapped to lower case, other characters kept.
pub open spec fn ascii_lowercase(s: Seq<char>) -> Seq<char> {
    Seq::new(
        s.len(),
        |i: int|
            if 'A' <= s[i] && s[i] <= 'Z' {
                ((s[i] as u32) + 32) as char
            } else {
                s[i]
            },
    )
}

/// The lower-case form that `str::to_lowercase` gives for a text.
pub uninterp spec fn lowercase_text(s: Seq<char>) -> Seq<char>;

/// Calls `str::to_lowercase`. Claimed: the result is the named lower-case
/// form of the text, and for ASCII text it is the text with `A`..`Z` mapped
/// to `a`..`z` (std documents the mapping as Unicode's `Lowercase`, which on
/// ASCII is exactly that). Left unsaid: what non-ASCII characters become.
#[verifier::external_body]
pub(crate) fn to_lowercase_string(s: &str) -> (r: String)
    ensures
        r@ == lowercase_text(s@),
        all_ascii(s@) ==> r@ == ascii_lowercase(s@),
{
    s.to_lowercase()
}

} // verus!

verus! {

/// Whether `regex::Regex::new` accepts a pattern.
pub uninterp spec fn regex_compiles(pattern: Seq<char>) -> bool;

/// Calls `regex::Regex::new` and tells whether it succeeded. Claimed: the
/// answer is the named acceptance of the pattern.
#[verifier::external_body]
pub(crate) fn regex_is_valid(pattern: &str) -> (r: bool)
    ensures
        r == regex_compiles(pattern@),
{
    regex::Regex::new(pattern).is_ok()
}

/// The byte spans of the successive matches that a compiled pattern finds
/// in a text.
pub uninterp spec fn regex_match_spans(pattern: Seq<char>, text: Seq<char>) -> Seq<(usize, usize)>;

/// Compiles the pattern with `regex::Regex::new` and collects the spans
/// (`Match::start`, `Match::end`) of `find_iter` over the text. Claimed: the
/// spans are the named ones; as the regex documentation states, the matches
/// are successive and do not overlap, and every offset lies within the text
/// on a UTF-8 character boundary.
#[verifier::external_body]
pub(crate) fn regex_find_spans(pattern: &str, text: &str) -> (r: Vec<(usize, usize)>)
    requires
        regex_compiles(pattern@),
    ensures
        r@ == regex_match_spans(pattern@, text@),
        forall|i: int| 0 <= i < r@.len() ==> (#[trigger] r@[i]).0 <= r@[i].1 && r@[i].1 <= text.spec_bytes().len(),
        forall|i: int| 0 <= i < r@.len() - 1 ==> (#[trigger] r@[i]).1 <= r@[i + 1].0,
        forall|i: int| 0 <= i < r@.len() ==> is_char_boundary(text.spec_bytes(), (#[trigger] r@[i]).0 as int)
            && is_char_boundary(text.spec_bytes(), r@[i].1 as int),
{
    match regex::Regex::new(pattern) {
        Ok(re) => re.find_iter(text).map(|m| (m.start(), m.end())).collect(),
        Err(_) => Vec::new(),
    }
}

} // verus!

verus! {

/// The `Debug` text of a list of strings, as `format!("{:?}", ..)` writes it.
pub uninterp spec fn debug_text_of_strings(items: Seq<Seq<char>>) -> Seq<char>;

/// Formats a slice of strings with `{:?}`. Claimed: the result is the named
/// debug text of the strings; how `Debug` quotes and escapes is left to std.
#[verifier::external_body]
pub(crate) fn debug_strings(items: &[String]) -> (r: String)
    ensures
        r@ == debug_text_of_strings(items@.map_values(|s: String| s@)),
{
    format!("{:?}", items)
}

} // verus!

verus! {

/// The bimap of the `bimap` crate, declared so that it can stand in fields
/// and signatures; what it holds is named by `id_pairs`.
#[verifier::external_type_specification]
#[verifier::external_body]
#[verifier::reject_recursive_types(L)]
#[verifier::reject_recursive_types(R)]
#[verifier::reject_recursive_types(LS)]
#[verifier::reject_recursive_types(RS)]
pub struct ExBiHashMap<L, R, LS, RS>(bimap::BiHashMap<L, R, LS, RS>);

/// A bimap of internal ids (left) and document ids (right).
pub type IdBiMap = bimap::BiHashMap<u64, String>;

/// The pairs a bimap of internal ids and document ids holds, as a map from
/// internal id (left) to document id (right).
pub uninterp spec fn id_pairs(m: IdBiMap) -> Map<u64, Seq<char>>;

/// No pairs.
pub open spec fn no_pairs() -> Map<u64, Seq<char>> {
    Map::empty()
}

/// The map without the pairs whose right value is `r`.
pub open spec fn without_right(m: Map<u64, Seq<char>>, r: Seq<char>) -> Map<u64, Seq<char>> {
    m.restrict(m.dom().filter(|k: u64| m[k] != r))
}

/// No two left values share a right value.
pub open spec fn injective_pairs(m: Map<u64, Seq<char>>) -> bool {
    forall|a: u64, b: u64| m.contains_key(a) && m.contains_key(b) && a != b ==> #[trigger] m[a] != #[trigger] m[b]
}

/// Calls `BiHashMap::new`. Claimed: the bimap is empty.
#[verifier::external_body]
pub(crate) fn id_map_new() -> (r: IdBiMap)
    ensures
        id_pairs(r) == no_pairs(),
{
    bimap::BiHashMap::new()
}

/// Calls `BiHashMap::insert`. Claimed, as its source shows: the pair with
/// the left value and the pair with the right value are removed, then the
/// new pair is added; no two left values share a right value afterwards
/// when none did before.
#[verifier::external_body]
pub(crate) fn id_map_insert(m: &mut IdBiMap, left: u64, right: String)
    ensures
        id_pairs(*final(m)) == without_right(id_pairs(*old(m)).remove(left), right@).insert(left, right@),
        injective_pairs(id_pairs(*old(m))) ==> injective_pairs(id_pairs(*final(m))),
{
    m.insert(left, right);
}

/// Calls `BiHashMap::get_by_left` and clones the document id. Claimed: the
/// right value paired with `left`, if any.
#[verifier::external_body]
pub(crate) fn id_map_get_by_left(m: &IdBiMap, left: u64) -> (r: Option<String>)
    ensures
        r matches Some(s) ==> id_pairs(*m).contains_key(left) && id_pairs(*m)[left] == s@,
        r is None ==> !id_pairs(*m).contains_key(left),
{
    m.get_by_left(&left).cloned()
}

/// Calls `BiHashMap::get_by_right`. Claimed: a left value paired with
/// `right`, or none when no pair has it.
#[verifier::external_body]
pub(crate) fn id_map_get_by_right(m: &IdBiMap, right: &str) -> (r: Option<u64>)
    ensures
        r matches Some(k) ==> id_pairs(*m).contains_key(k) && id_pairs(*m)[k] == right@,
        r is None ==> forall|k: u64| #[trigger] id_pairs(*m).contains_key(k) ==> id_pairs(*m)[k] != right@,
{
    m.get_by_right(right).copied()
}

/// Calls `BiHashMap::remove_by_right`. Claimed: the pairs with that right
/// value are gone and all others stay.
#[verifier::external_body]
pub(crate) fn id_map_remove_by_right(m: &mut IdBiMap, right: &str)
    ensures
        id_pairs(*final(m)) == without_right(id_pairs(*old(m)), right@),
        injective_pairs(id_pairs(*old(m))) ==> injective_pairs(id_pairs(*final(m))),
{
    m.remove_by_right(right);
}

/// Walks `BiHashMap::iter` and clones each pair. Claimed: every pair of the
/// bimap comes out once; the order is the hash order, left unsaid.
#[verifier::external_body]
pub(crate) fn id_map_entries(m: &IdBiMap) -> (r: Vec<(u64, String)>)
    ensures
        forall|i: int| 0 <= i < r@.len() ==> #[trigger] id_pairs(*m).contains_key(r@[i].0) && id_pairs(*m)[r@[i].0] == r@[i].1@,
        forall|k: u64| #[trigger] id_pairs(*m).contains_key(k) ==> exists|i: int| 0 <= i < r@.len() && #[trigger] r@[i].0 == k,
        forall|i: int, j: int| 0 <= i < j < r@.len() ==> #[trigger] r@[i].0 != #[trigger] r@[j].0,
{
    m.iter().map(|(l, r)| (*l, r.clone())).collect()
}

} // verus!

verus! {

/// The text of the error `std::str::from_utf8` gives for bytes that are not
/// valid UTF-8, as its `Display` writes it.
pub uninterp spec fn utf8_error_text(b: Seq<u8>) -> Seq<char>;

/// Calls `std::str::from_utf8`, taking an owned `String` of the text or the
/// error's `Display` text. Claimed, as std documents: it succeeds exactly on
/// valid UTF-8, and then holds the decoded text; the error text is named.
#[verifier::external_body]
pub(crate) fn utf8_or_error(b: &[u8]) -> (r: Result<String, String>)
    ensures
        r is Ok <==> valid_utf8(b@),
        r matches Ok(t) ==> t@ == decode_utf8(b@),
        r matches Err(t) ==> t@ == utf8_error_text(b@),
{
    match std::str::from_utf8(b) {
        Ok(s) => Ok(s.to_string()),
        Err(e) => Err(e.to_string()),
    }
}

/// The text without a leading `+`.
pub open spec fn unsigned_digits(t: Seq<char>) -> Seq<char> {
    if t.len() > 0 && t[0] == '+' {
        t.drop_first()
    } else {
        t
    }
}

/// A parse result with its error text as characters.
pub open spec fn parse_view(r: Result<u64, String>) -> Result<u64, Seq<char>> {
    match r {
        Ok(v) => Ok(v),
        Err(m) => Err(m@),
    }
}

/// What `str::parse::<u64>` gives for a text: the number, or the error's
/// `Display` text.
pub uninterp spec fn u64_parse(t: Seq<char>) -> Result<u64, Seq<char>>;

/// Calls `str::parse::<u64>`, taking the error's `Display` text. Claimed, as
/// std documents for `u64::from_str`: the text is accepted exactly when it
/// is an optional `+` and one or more decimal digits whose value fits in a
/// `u64`, and then the result is that value; the result is named.
#[verifier::external_body]
pub(crate) fn parse_u64(t: &str) -> (r: Result<u64, String>)
    ensures
        parse_view(r) == u64_parse(t@),
        r is Ok <==> (unsigned_digits(t@).len() > 0 && all_digit_chars(unsigned_digits(t@))
            && decimal_value(unsigned_digits(t@)) <= u64::MAX),
        r matches Ok(v) ==> v == decimal_value(unsigned_digits(t@)),
{
    match t.parse::<u64>() {
        Ok(v) => Ok(v),
        Err(e) => Err(e.to_string()),
    }
}

} // verus!
