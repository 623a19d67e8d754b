//! Fixed-width, order-preserving encoding of numbers.
//!
//! Every number encodes to sixteen bytes: a sign byte (`0x00` negative,
//! `0x80` zero, `0xFF` positive), a two-byte big-endian exponent biased by
//! `0x4000` (the number of decimal digits before the decimal point), and
//! thirteen bytes of packed decimal mantissa (two digits per byte, high
//! nibble first). For negative numbers every byte after the sign is
//! complemented (`0xFF - b`) and the padding is `0xFF`, so that bytewise
//! comparison follows numeric order.

use vstd::prelude::*;
use vstd::string::*;
use vstd::utf8::*;
use crate::order::{first_lower_at, lex_lt, lemma_first_lower_extend, lemma_lex_lt_at};
use crate::external::{decimal_from_str_bytes, decimal_sortable_bytes, decimal_parse_in_range};
use crate::value::{FloatText, float_text_ok, decimal_text_ok, decimal_nan_text, decimal_inf_text, decimal_neg_inf_text, is_digit_char, is_plain_decimal, nan_text, inf_text, neg_inf_text};

verus! {

/// Width of an encoded number, without its type tag.
pub const NUMERIC_FIXED_WIDTH: usize = 16;

pub const NUMERIC_SIGN_NEGATIVE: u8 = 0x00;

pub const NUMERIC_SIGN_ZERO: u8 = 0x80;

pub const NUMERIC_SIGN_POSITIVE: u8 = 0xFF;

/// Number of mantissa bytes in the fixed-width encoding.
pub const MANTISSA_BYTES: usize = 13;

pub open spec fn pow10(k: nat) -> nat
    decreases k,
{
    if k == 0 {
        1
    } else {
        10 * pow10((k - 1) as nat)
    }
}

/// Number of decimal digits of `n` (one for zero).
pub open spec fn num_digits(n: nat) -> nat
    decreases n,
{
    if n < 10 {
        1
    } else {
        1 + num_digits(n / 10)
    }
}

/// The `d` least significant decimal digits of `n`, most significant first.
pub open spec fn digits_of(n: nat, d: nat) -> Seq<u8>
    decreases d,
{
    if d == 0 {
        seq![]
    } else {
        digits_of(n / 10, (d - 1) as nat).push((n % 10) as u8)
    }
}

/// Digit `i` of a digit sequence, zero past its end.
pub open spec fn digit_or_zero(ds: Seq<u8>, i: int) -> u8 {
    if 0 <= i < ds.len() {
        ds[i]
    } else {
        0
    }
}

/// Packs decimal digits two per byte, high nibble first; an odd count is
/// padded with a zero digit.
pub open spec fn bcd_pack(ds: Seq<u8>) -> Seq<u8> {
    Seq::new(
        ((ds.len() + 1) / 2) as nat,
        |i: int| (digit_or_zero(ds, 2 * i) * 16 + digit_or_zero(ds, 2 * i + 1)) as u8,
    )
}

pub open spec fn complement(s: Seq<u8>) -> Seq<u8> {
    Seq::new(s.len(), |i: int| (255 - s[i]) as u8)
}

pub open spec fn fill(n: nat, b: u8) -> Seq<u8> {
    Seq::new(n, |i: int| b)
}

/// A number with the given sign, biased exponent and mantissa bytes.
pub open spec fn numeric_fixed(negative: bool, exp: u16, mant: Seq<u8>) -> Seq<u8> {
    let hi = (exp / 256) as u8;
    let lo = (exp % 256) as u8;
    if !negative {
        seq![NUMERIC_SIGN_POSITIVE, hi, lo] + mant + fill((13 - mant.len()) as nat, 0)
    } else {
        seq![NUMERIC_SIGN_NEGATIVE, (255 - hi) as u8, (255 - lo) as u8] + complement(mant) + fill(
            (13 - mant.len()) as nat,
            255,
        )
    }
}

pub open spec fn numeric_zero() -> Seq<u8> {
    seq![NUMERIC_SIGN_ZERO] + fill(15, 0)
}

pub open spec fn numeric_nan() -> Seq<u8> {
    fill(16, 0xFF)
}

pub open spec fn numeric_pos_infinity() -> Seq<u8> {
    fill(15, 0xFF).push(0xFE)
}

pub open spec fn numeric_neg_infinity() -> Seq<u8> {
    fill(16, 0)
}

pub open spec fn abs_int(n: int) -> nat {
    if n < 0 {
        (-n) as nat
    } else {
        n as nat
    }
}

/// Encoding of a non-zero integer of magnitude `a`.
pub open spec fn spec_encode_magnitude(negative: bool, a: nat) -> Seq<u8> {
    let d = num_digits(a);
    numeric_fixed(negative, (0x4000 + d) as u16, bcd_pack(digits_of(a, d)))
}

/// The fixed-width encoding of an integer.
pub open spec fn spec_encode_int(n: int) -> Seq<u8> {
    if n == 0 {
        numeric_zero()
    } else {
        spec_encode_magnitude(n < 0, abs_int(n))
    }
}

/// `n < 10^k` with `k >= 1` gives at most `k` digits.
pub(crate) proof fn lemma_num_digits_le(n: nat, k: nat)
    requires
        k >= 1,
        n < pow10(k),
    ensures
        num_digits(n) <= k,
    decreases k,
{
    if n >= 10 {
        assert(k >= 2) by {
            if k == 1 {
                assert(pow10(1) == 10) by {
                    reveal_with_fuel(pow10, 2);
                }
            }
        }
        let p = pow10((k - 1) as nat);
        assert(n / 10 < p) by (nonlinear_arith)
            requires
                n < 10 * p,
        ;
        lemma_num_digits_le(n / 10, (k - 1) as nat);
    }
}

proof fn lemma_pow10_20()
    ensures
        pow10(19) == 10_000_000_000_000_000_000nat,
        pow10(20) == 100_000_000_000_000_000_000nat,
{
    reveal_with_fuel(pow10, 21);
}

/// Counts the decimal digits of `n`.
fn count_digits_u64(n: u64) -> (d: u8)
    ensures
        d == num_digits(n as nat),
        1 <= d <= 20,
{
    proof {
        lemma_pow10_20();
        lemma_num_digits_le(n as nat, 20);
    }
    let mut d: u8 = 1;
    let mut t: u64 = n;
    while t >= 10
        invariant
            1 <= d,
            d as nat + num_digits(t as nat) == 1 + num_digits(n as nat),
            num_digits(n as nat) <= 20,
        decreases t,
    {
        t = t / 10;
        d = d + 1;
    }
    d
}

pub(crate) proof fn lemma_digits_of_len(n: nat, d: nat)
    ensures
        digits_of(n, d).len() == d,
    decreases d,
{
    if d > 0 {
        lemma_digits_of_len(n / 10, (d - 1) as nat);
    }
}

pub(crate) proof fn lemma_digits_of_bound(n: nat, d: nat)
    ensures
        forall|i: int| 0 <= i < d ==> #[trigger] digits_of(n, d)[i] < 10,
    decreases d,
{
    lemma_digits_of_len(n, d);
    if d > 0 {
        lemma_digits_of_bound(n / 10, (d - 1) as nat);
        lemma_digits_of_len(n / 10, (d - 1) as nat);
        assert forall|i: int| 0 <= i < d implies #[trigger] digits_of(n, d)[i] < 10 by {
            if i < d - 1 {
                assert(digits_of(n, d)[i] == digits_of(n / 10, (d - 1) as nat)[i]);
            }
        }
    }
}

/// Digit `i` (from the most significant) of the `d`-digit form of `n`.
pub(crate) proof fn lemma_digits_of_index(n: nat, d: nat, i: int)
    requires
        0 <= i < d,
    ensures
        digits_of(n, d)[i] == ((n / pow10((d - 1 - i) as nat)) % 10) as u8,
    decreases d,
{
    lemma_digits_of_len(n / 10, (d - 1) as nat);
    if i == d - 1 {
        assert(pow10(0) == 1);
        assert(((d - 1 - i) as nat) == 0);
        assert(digits_of(n, d)[i] == (n % 10) as u8);
        assert(n / pow10((d - 1 - i) as nat) == n);
    } else {
        lemma_digits_of_index(n / 10, (d - 1) as nat, i);
        assert(digits_of(n, d)[i] == digits_of(n / 10, (d - 1) as nat)[i]);
        let k = (d - 2 - i) as nat;
        assert(((d - 1) as nat - 1 - i) as nat == k);
        let p = pow10(k);
        assert(pow10((d - 1 - i) as nat) == 10 * p);
        assert(p > 0) by {
            lemma_pow10_pos(k);
        }
        assert((n / 10) / p == n / (10 * p)) by {
            vstd::arithmetic::div_mod::lemma_div_denominator(n as int, 10, p as int);
        }
        assert(digits_of(n, d)[i] == (((n / 10) / p) % 10) as u8);
        assert((n / 10) / p == n / pow10((d - 1 - i) as nat));
    }
}

pub(crate) proof fn lemma_pow10_pos(k: nat)
    ensures
        pow10(k) > 0,
    decreases k,
{
    if k > 0 {
        lemma_pow10_pos((k - 1) as nat);
    }
}

/// Decimal digits of `n`, `digit_count` of them, packed two per byte.
fn int_to_bcd(n: u64, digit_count: u8) -> (out: Vec<u8>)
    requires
        1 <= digit_count <= 20,
    ensures
        out@ == bcd_pack(digits_of(n as nat, digit_count as nat)),
        out@.len() == (digit_count as nat + 1) / 2,
{
    let dc = digit_count as usize;
    let ghost ds = digits_of(n as nat, dc as nat);
    proof {
        lemma_digits_of_len(n as nat, dc as nat);
    }
    let mut digits: Vec<u8> = Vec::new();
    let mut k: usize = 0;
    while k < dc
        invariant
            k <= dc,
            digits@.len() == k,
        decreases dc - k,
    {
        digits.push(0);
        k = k + 1;
    }
    let mut m: u64 = n;
    let mut i: usize = 0;
    while i < dc
        invariant
            i <= dc,
            dc <= 20,
            digits@.len() == dc,
            ds == digits_of(n as nat, dc as nat),
            ds.len() == dc,
            m as nat == (n as nat) / pow10(i as nat),
            forall|j: int| dc - i <= j < dc ==> #[trigger] digits@[j] == ds[j],
        decreases dc - i,
    {
        proof {
            lemma_digits_of_index(n as nat, dc as nat, dc - 1 - i);
            lemma_pow10_pos(i as nat);
            vstd::arithmetic::div_mod::lemma_div_denominator(n as int, pow10(i as nat) as int, 10);
            assert(pow10((i + 1) as nat) == pow10(i as nat) * 10);
        }
        digits.set(dc - 1 - i, (m % 10) as u8);
        m = m / 10;
        i = i + 1;
    }
    assert(digits@ =~= ds);
    let bcd_len = (dc + 1) / 2;
    let mut out: Vec<u8> = Vec::new();
    let mut p: usize = 0;
    proof {
        lemma_digits_of_bound(n as nat, dc as nat);
    }
    while p < bcd_len
        invariant
            bcd_len == (dc + 1) / 2,
            dc <= 20,
            digits@ == ds,
            ds.len() == dc,
            forall|j: int| 0 <= j < dc ==> #[trigger] ds[j] < 10,
            p <= bcd_len,
            out@ == bcd_pack(ds).subrange(0, p as int),
        decreases bcd_len - p,
    {
        let high = digits[2 * p];
        let low = if 2 * p + 1 < dc {
            digits[2 * p + 1]
        } else {
            0
        };
        assert(high < 10 && low < 10);
        out.push(high * 16 + low);
        assert(out@ =~= bcd_pack(ds).subrange(0, p + 1));
        p = p + 1;
    }
    assert(out@ =~= bcd_pack(ds));
    out
}


fn fill_vec(n: usize, b: u8) -> (r: Vec<u8>)
    ensures
        r@ == fill(n as nat, b),
{
    let mut r: Vec<u8> = Vec::new();
    let mut i: usize = 0;
    while i < n
        invariant
            i <= n,
            r@ == fill(i as nat, b),
        decreases n - i,
    {
        r.push(b);
        assert(r@ =~= fill((i + 1) as nat, b));
        i = i + 1;
    }
    r
}

fn numeric_zero_vec() -> (r: Vec<u8>)
    ensures
        r@ == numeric_zero(),
{
    let mut r = vec![NUMERIC_SIGN_ZERO];
    let mut rest = fill_vec(15, 0);
    r.append(&mut rest);
    r
}

fn numeric_nan_vec() -> (r: Vec<u8>)
    ensures
        r@ == numeric_nan(),
{
    fill_vec(16, 0xFF)
}

fn numeric_pos_infinity_vec() -> (r: Vec<u8>)
    ensures
        r@ == numeric_pos_infinity(),
{
    let mut r = fill_vec(15, 0xFF);
    r.push(0xFE);
    r
}

fn numeric_neg_infinity_vec() -> (r: Vec<u8>)
    ensures
        r@ == numeric_neg_infinity(),
{
    fill_vec(16, 0)
}

/// Lays out sign, exponent and mantissa as in `numeric_fixed`.
fn build_fixed(negative: bool, exp: u16, mant: &Vec<u8>) -> (r: Vec<u8>)
    requires
        mant@.len() <= MANTISSA_BYTES,
    ensures
        r@ == numeric_fixed(negative, exp, mant@),
        r@.len() == NUMERIC_FIXED_WIDTH,
{
    let hi = (exp / 256) as u8;
    let lo = (exp % 256) as u8;
    let mut r: Vec<u8> = Vec::new();
    if negative {
        r.push(NUMERIC_SIGN_NEGATIVE);
        r.push(0xFF - hi);
        r.push(0xFF - lo);
    } else {
        r.push(NUMERIC_SIGN_POSITIVE);
        r.push(hi);
        r.push(lo);
    }
    let ghost head = r@;
    let mut i: usize = 0;
    while i < mant.len()
        invariant
            i <= mant@.len(),
            mant@.len() <= 13,
            head.len() == 3,
            r@.len() == 3 + i,
            r@.subrange(0, 3) == head,
            forall|j: int|
                0 <= j < i ==> #[trigger] r@[3 + j] == (if negative {
                    (255 - mant@[j]) as u8
                } else {
                    mant@[j]
                }),
        decreases mant@.len() - i,
    {
        let b = mant[i];
        if negative {
            r.push(0xFF - b);
        } else {
            r.push(b);
        }
        assert(r@.subrange(0, 3) =~= head);
        i = i + 1;
    }
    let pad = if negative {
        0xFFu8
    } else {
        0u8
    };
    let ghost body = r@;
    let mut tail = fill_vec(13 - mant.len(), pad);
    let ghost tail_v = tail@;
    r.append(&mut tail);
    proof {
        assert(r@ == body + tail_v);
        assert(head[0] == body[0] && head[1] == body[1] && head[2] == body[2]);
        let m = mant@;
        if negative {
            let expect = seq![NUMERIC_SIGN_NEGATIVE, (255 - hi) as u8, (255 - lo) as u8]
                + complement(m) + fill((13 - m.len()) as nat, 255);
            assert forall|j: int| 0 <= j < 16 implies r@[j] == expect[j] by {
                if j < 3 {
                    assert(r@[j] == head[j]);
                } else if j < 3 + m.len() {
                    assert(r@[3 + (j - 3)] == (255 - m[j - 3]) as u8);
                } else {
                    assert(r@[j] == tail_v[j - 3 - m.len()]);
                }
            }
            assert(r@ =~= expect);
        } else {
            let expect = seq![NUMERIC_SIGN_POSITIVE, hi, lo] + m + fill((13 - m.len()) as nat, 0);
            assert forall|j: int| 0 <= j < 16 implies r@[j] == expect[j] by {
                if j < 3 {
                    assert(r@[j] == head[j]);
                } else if j < 3 + m.len() {
                    assert(r@[3 + (j - 3)] == m[j - 3]);
                } else {
                    assert(r@[j] == tail_v[j - 3 - m.len()]);
                }
            }
            assert(r@ =~= expect);
        }
    }
    r
}

/// Encodes an integer into the fixed-width numeric form.
pub fn encode_i64_fixed_width(n: i64) -> (r: Vec<u8>)
    ensures
        r@ == spec_encode_int(n as int),
        r@.len() == NUMERIC_FIXED_WIDTH,
{
    if n == 0 {
        return numeric_zero_vec();
    }
    let is_negative = n < 0;
    let abs_n: u64 = if n == i64::MIN {
        9223372036854775808u64
    } else if n < 0 {
        (-n) as u64
    } else {
        n as u64
    };
    assert(abs_n as nat == abs_int(n as int));
    let digit_count = count_digits_u64(abs_n);
    let mantissa = int_to_bcd(abs_n, digit_count);
    build_fixed(is_negative, 0x4000u16 + digit_count as u16, &mantissa)
}


// ---------------------------------------------------------------------------
// Decimal text (the magnitude of a double, as displayed)
// ---------------------------------------------------------------------------

/// What a left-to-right scan of a decimal text has collected: the
/// significant digits, how many of them stand before the decimal point,
/// whether the point was seen, how many zeros follow the point before the
/// first significant digit, and the exponent after an `e` or `E` (its
/// digits and whether a `-` marks it negative).
pub struct FloatScan {
    pub digits: Seq<u8>,
    pub decimal_pos: int,
    pub found_decimal: bool,
    pub leading_zeros: int,
    pub in_exponent: bool,
    pub exp_negative: bool,
    pub exponent: int,
}

pub open spec fn scan_start() -> FloatScan {
    FloatScan {
        digits: seq![],
        decimal_pos: 0,
        found_decimal: false,
        leading_zeros: 0,
        in_exponent: false,
        exp_negative: false,
        exponent: 0,
    }
}

pub open spec fn digit_value(c: char) -> u8 {
    (c as u32 - '0' as u32) as u8
}

pub open spec fn scan_step(st: FloatScan, c: char) -> FloatScan {
    if is_digit_char(c) {
        let d = digit_value(c);
        if st.in_exponent {
            FloatScan { exponent: st.exponent * 10 + d, ..st }
        } else if d == 0 && st.digits.len() == 0 && st.found_decimal {
            FloatScan { leading_zeros: st.leading_zeros + 1, ..st }
        } else if d != 0 || st.digits.len() > 0 {
            FloatScan {
                digits: st.digits.push(d),
                decimal_pos: if st.found_decimal {
                    st.decimal_pos
                } else {
                    st.decimal_pos + 1
                },
                ..st
            }
        } else {
            st
        }
    } else if c == '.' {
        FloatScan { found_decimal: true, ..st }
    } else if c == 'e' || c == 'E' {
        FloatScan { in_exponent: true, ..st }
    } else if c == '-' && st.in_exponent {
        FloatScan { exp_negative: true, ..st }
    } else {
        st
    }
}

pub open spec fn float_scan(s: Seq<char>) -> FloatScan
    decreases s.len(),
{
    if s.len() == 0 {
        scan_start()
    } else {
        scan_step(float_scan(s.drop_last()), s.last())
    }
}

pub open spec fn take_at_most(s: Seq<u8>, n: nat) -> Seq<u8> {
    if s.len() <= n {
        s
    } else {
        s.take(n as int)
    }
}

/// The position of the decimal point after the exponent moved it.
pub open spec fn shifted_pos(st: FloatScan) -> int {
    st.decimal_pos + if st.exp_negative {
        -st.exponent
    } else {
        st.exponent
    }
}

/// The decimal exponent of the significant digits: the shifted point,
/// less the zeros after the point when no digit stands before it.
pub open spec fn final_pos(st: FloatScan) -> int {
    if shifted_pos(st) <= 0 {
        shifted_pos(st) - st.leading_zeros
    } else {
        shifted_pos(st)
    }
}

/// Encoding of a decimal text (plain, or with an exponent as in `1.5e-5`)
/// whose sign is given apart.
pub open spec fn spec_encode_decimal_digits(s: Seq<char>, negative: bool) -> Seq<u8> {
    let st = float_scan(s);
    if st.digits.len() == 0 {
        numeric_zero()
    } else {
        numeric_fixed(negative, (0x4000 + final_pos(st)) as u16, take_at_most(bcd_pack(st.digits), 13))
    }
}

pub open spec fn no_exponent_marker(s: Seq<char>) -> bool {
    forall|i: int| 0 <= i < s.len() ==> #[trigger] s[i] != 'e' && s[i] != 'E'
}

/// The texts whose 16-bit position arithmetic stays in range: the counts
/// of digits before the point and of zeros after it, the exponent, the
/// shifted point and the biased exponent all fit an `i16`.
pub open spec fn float_string_in_range(s: Seq<char>) -> bool {
    let st = float_scan(s);
    &&& st.decimal_pos <= 0x7FFF
    &&& st.leading_zeros <= 0x7FFF
    &&& st.exponent <= 0x7FFF
    &&& -0x8000 <= shifted_pos(st) <= 0x7FFF
    &&& st.digits.len() > 0 ==> -0x8000 <= final_pos(st) && 0x4000 + final_pos(st) <= 0x7FFF
}

pub(crate) proof fn lemma_float_scan_bounds(s: Seq<char>)
    ensures
        0 <= float_scan(s).decimal_pos <= float_scan(s).digits.len() <= s.len(),
        0 <= float_scan(s).leading_zeros <= s.len(),
        0 <= float_scan(s).exponent,
        forall|i: int|
            0 <= i < float_scan(s).digits.len() ==> #[trigger] float_scan(s).digits[i] < 10,
        no_exponent_marker(s) ==> !float_scan(s).in_exponent && float_scan(s).exponent == 0
            && !float_scan(s).exp_negative,
    decreases s.len(),
{
    if s.len() > 0 {
        lemma_float_scan_bounds(s.drop_last());
        if no_exponent_marker(s) {
            assert forall|i: int| 0 <= i < s.drop_last().len() implies #[trigger] s.drop_last()[i] != 'e' && s.drop_last()[i] != 'E' by {
                assert(s.drop_last()[i] == s[i]);
            }
            assert(s[s.len() - 1] != 'e');
        }
    }
}

/// The counters of a scan only grow as the text goes on.
proof fn lemma_float_scan_grows(s: Seq<char>, i: int)
    requires
        0 <= i <= s.len(),
    ensures
        float_scan(s.take(i)).decimal_pos <= float_scan(s).decimal_pos,
        float_scan(s.take(i)).leading_zeros <= float_scan(s).leading_zeros,
        float_scan(s.take(i)).exponent <= float_scan(s).exponent,
    decreases s.len() - i,
{
    if i < s.len() {
        lemma_float_scan_grows(s, i + 1);
        lemma_float_scan_bounds(s.take(i));
        assert(s.take(i + 1).drop_last() =~= s.take(i));
    } else {
        assert(s.take(i) =~= s);
    }
}

/// Encodes the magnitude text of a non-integral double with the given sign:
/// plain (`0.001`) or with an exponent (`1e10`, `1.5e-5`).
pub fn encode_float_string(s: &str, is_negative: bool) -> (r: Vec<u8>)
    requires
        float_string_in_range(s@),
    ensures
        r@ == spec_encode_decimal_digits(s@, is_negative),
        r@.len() == NUMERIC_FIXED_WIDTH,
{
    let ghost fin = float_scan(s@);
    let n = s.unicode_len();
    let mut digits: Vec<u8> = Vec::new();
    let mut decimal_pos: i16 = 0;
    let mut found_decimal = false;
    let mut leading_zeros: i16 = 0;
    let mut found_significant = false;
    let mut in_exponent = false;
    let mut exp_negative = false;
    let mut exponent: i16 = 0;
    let mut i: usize = 0;
    while i < n
        invariant
            n == s@.len(),
            fin == float_scan(s@),
            float_string_in_range(s@),
            i <= n,
            ({
                let st = float_scan(s@.take(i as int));
                &&& digits@ == st.digits
                &&& decimal_pos as int == st.decimal_pos
                &&& found_decimal == st.found_decimal
                &&& leading_zeros as int == st.leading_zeros
                &&& found_significant == (st.digits.len() > 0)
                &&& in_exponent == st.in_exponent
                &&& exp_negative == st.exp_negative
                &&& exponent as int == st.exponent
            }),
        decreases n - i,
    {
        proof {
            lemma_float_scan_bounds(s@.take(i as int));
            lemma_float_scan_grows(s@, i + 1);
            lemma_float_scan_bounds(s@.take(i + 1));
            assert(s@.take(i + 1).drop_last() =~= s@.take(i as int));
            assert(s@.take(i + 1).last() == s@[i as int]);
        }
        let c = s.get_char(i);
        let b = c as u32;
        if b >= 48 && b <= 57 {
            let digit = (b - 48) as u8;
            if in_exponent {
                exponent = exponent * 10 + digit as i16;
            } else if digit == 0 && !found_significant && found_decimal {
                leading_zeros = leading_zeros + 1;
            } else if digit != 0 || found_significant {
                found_significant = true;
                digits.push(digit);
                if !found_decimal {
                    decimal_pos = decimal_pos + 1;
                }
            }
        } else if b == 46 {
            found_decimal = true;
        } else if b == 101 || b == 69 {
            in_exponent = true;
        } else if b == 45 && in_exponent {
            exp_negative = true;
        }
        i = i + 1;
    }
    proof {
        assert(s@.take(n as int) =~= s@);
        lemma_float_scan_bounds(s@);
    }
    if exp_negative {
        exponent = -exponent;
    }
    decimal_pos = decimal_pos + exponent;
    if !found_significant || digits.len() == 0 {
        return numeric_zero_vec();
    }
    if decimal_pos <= 0 {
        decimal_pos = decimal_pos - leading_zeros;
    }
    let exp_value: i16 = 0x4000i16 + decimal_pos;
    let digit_count = digits.len();
    let bcd_len = digit_count / 2 + digit_count % 2;
    let take = if bcd_len < 13 {
        bcd_len
    } else {
        13
    };
    let ghost packed = bcd_pack(digits@);
    let mut mant: Vec<u8> = Vec::new();
    let mut p: usize = 0;
    while p < take
        invariant
            take <= bcd_len,
            take <= 13,
            bcd_len == (digit_count + 1) / 2,
            digit_count == digits@.len(),
            packed == bcd_pack(digits@),
            forall|j: int| 0 <= j < digit_count ==> #[trigger] digits@[j] < 10,
            p <= take,
            mant@ == packed.subrange(0, p as int),
        decreases take - p,
    {
        let high = digits[2 * p];
        let low = if 2 * p + 1 < digit_count {
            digits[2 * p + 1]
        } else {
            0
        };
        mant.push(high * 16 + low);
        assert(mant@ =~= packed.subrange(0, p + 1));
        p = p + 1;
    }
    assert(mant@ =~= take_at_most(packed, 13));
    build_fixed(is_negative, exp_value as u16, &mant)
}

// ---------------------------------------------------------------------------
// Doubles, held as the text they display as
// ---------------------------------------------------------------------------

/// Value of a text made of decimal digits.
pub open spec fn decimal_value(s: Seq<char>) -> nat
    decreases s.len(),
{
    if s.len() == 0 {
        0
    } else {
        10 * decimal_value(s.drop_last()) + digit_value(s.last()) as nat
    }
}

pub open spec fn all_digit_chars(s: Seq<char>) -> bool {
    forall|i: int| 0 <= i < s.len() ==> is_digit_char(#[trigger] s[i])
}

pub open spec fn is_zero_text(s: Seq<char>) -> bool {
    forall|i: int| 0 <= i < s.len() ==> #[trigger] s[i] == '0' || s[i] == '.'
}

pub open spec fn text_is_negative(t: Seq<char>) -> bool {
    t.len() > 0 && t[0] == '-'
}

pub open spec fn magnitude_text(t: Seq<char>) -> Seq<char> {
    if text_is_negative(t) {
        t.drop_first()
    } else {
        t
    }
}

pub open spec fn two_pow_63() -> nat {
    0x8000_0000_0000_0000nat
}

/// The fixed-width encoding of a double given by its display text. Integral
/// values up to 2^63 go through the integer encoding (2^63 itself saturates to
/// `i64::MAX`); others through their decimal digits.
pub open spec fn spec_encode_float_text(t: Seq<char>) -> Seq<u8> {
    if t == nan_text() {
        numeric_nan()
    } else if t == inf_text() {
        numeric_pos_infinity()
    } else if t == neg_inf_text() {
        numeric_neg_infinity()
    } else {
        let neg = text_is_negative(t);
        let a = magnitude_text(t);
        if is_zero_text(a) {
            numeric_zero()
        } else if all_digit_chars(a) && decimal_value(a) <= two_pow_63() {
            let m: int = if decimal_value(a) == two_pow_63() {
                i64::MAX as int
            } else {
                decimal_value(a) as int
            };
            spec_encode_int(
                if neg {
                    -m
                } else {
                    m
                },
            )
        } else {
            spec_encode_decimal_digits(a, neg)
        }
    }
}

pub(crate) proof fn lemma_float_text_ascii(t: Seq<char>)
    requires
        float_text_ok(t),
    ensures
        is_ascii_chars(t),
        no_exponent_marker(t),
        is_ascii_chars(magnitude_text(t)),
        no_exponent_marker(magnitude_text(t)),
{
    reveal_with_fuel(vstd::utf8::is_ascii_chars, 1);
    if t == nan_text() || t == inf_text() || t == neg_inf_text() {
    } else if is_plain_decimal(t) {
        assert forall|i: int| 0 <= i < t.len() implies '\0' <= #[trigger] t[i] <= '\u{7f}' by {
            assert(is_digit_char(t[i]) || t[i] == '.');
        }
    } else {
        let u = t.drop_first();
        assert forall|i: int| 0 <= i < t.len() implies '\0' <= #[trigger] t[i] <= '\u{7f}' && t[i]
            != 'e' && t[i] != 'E' by {
            if i > 0 {
                assert(t[i] == u[i - 1]);
                assert(is_digit_char(u[i - 1]) || u[i - 1] == '.');
            }
        }
    }
}

proof fn lemma_float_text_in_range(t: Seq<char>)
    requires
        float_text_ok(t),
    ensures
        float_string_in_range(magnitude_text(t)),
{
    lemma_float_text_ascii(t);
    lemma_float_scan_bounds(magnitude_text(t));
}

proof fn lemma_decimal_value_step(s: Seq<char>, i: int)
    requires
        0 <= i < s.len(),
    ensures
        decimal_value(s.take(i + 1)) == 10 * decimal_value(s.take(i)) + digit_value(s[i]) as nat,
{
    assert(s.take(i + 1).drop_last() =~= s.take(i));
}

/// Encodes a double, given by its display text, into the fixed-width form.
pub fn encode_f64_fixed_width(f: &FloatText) -> (r: Vec<u8>)
    ensures
        r@ == spec_encode_float_text(f@),
        r@.len() == NUMERIC_FIXED_WIDTH,
{
    broadcast use vstd::utf8::is_ascii_chars_encode_utf8;

    let t = f.text();
    let ghost tv = t@;
    proof {
        lemma_float_text_ascii(tv);
        reveal_strlit("NaN");
        reveal_strlit("inf");
        reveal_strlit("-inf");
    }
    let bytes = t.as_bytes();
    proof {
        is_ascii_chars_encode_utf8(tv);
    }
    let n = bytes.len();
    assert(n == tv.len());
    // Special values.
    if n == 3 && bytes[0] == 78 && bytes[1] == 97 && bytes[2] == 78 {
        assert(tv =~= nan_text());
        return numeric_nan_vec();
    }
    if n == 3 && bytes[0] == 105 && bytes[1] == 110 && bytes[2] == 102 {
        assert(tv =~= inf_text());
        return numeric_pos_infinity_vec();
    }
    if n == 4 && bytes[0] == 45 && bytes[1] == 105 && bytes[2] == 110 && bytes[3] == 102 {
        assert(tv =~= neg_inf_text());
        return numeric_neg_infinity_vec();
    }
    assert(tv != nan_text() && tv != inf_text() && tv != neg_inf_text()) by {
        if tv == nan_text() {
            assert(bytes@[0] == tv[0] as u8);
        }
        if tv == inf_text() {
            assert(bytes@[0] == tv[0] as u8);
        }
        if tv == neg_inf_text() {
            assert(bytes@[1] == tv[1] as u8);
        }
    }
    let is_negative = n > 0 && bytes[0] == 45;
    let start: usize = if is_negative {
        1
    } else {
        0
    };
    let ghost a = magnitude_text(tv);
    assert(is_negative == text_is_negative(tv)) by {
        if n > 0 {
            assert(bytes@[0] == tv[0] as u8);
        }
    }
    assert(a =~= tv.subrange(start as int, n as int));
    // Scan the magnitude: zero?, integral?, value up to 2^63.
    let mut all_zero = true;
    let mut all_digits = true;
    let mut big = false;
    let mut acc: u64 = 0;
    let mut i: usize = start;
    while i < n
        invariant
            start <= i <= n,
            n == tv.len(),
            bytes@ == encode_utf8(tv),
            bytes@.len() == n,
            forall|j: int| 0 <= j < n ==> #[trigger] tv[j] as u8 == bytes@[j],
            is_ascii_chars(tv),
            a == tv.subrange(start as int, n as int),
            all_zero == is_zero_text(a.take(i - start)),
            all_digits == all_digit_chars(a.take(i - start)),
            all_digits && !big ==> acc as nat == decimal_value(a.take(i - start)),
            all_digits && big ==> decimal_value(a.take(i - start)) > two_pow_63(),
            acc <= two_pow_63(),
        decreases n - i,
    {
        let b = bytes[i];
        let ghost k = i - start;
        let ghost c = a[k];
        assert(c == tv[i as int]);
        assert(c as u8 == b);
        assert(c as u32 == b as u32);
        proof {
            assert(a.take(k + 1).drop_last() =~= a.take(k));
            assert forall|j: int| 0 <= j < k + 1 implies #[trigger] a.take(k + 1)[j] == a.take(
                k,
            )[j] || j == k by {}
            if all_digits {
                lemma_decimal_value_step(a, k);
            }
        }
        if b != 48 && b != 46 {
            all_zero = false;
        }
        if b >= 48 && b <= 57 {
            if all_digits && !big {
                let d = (b - 48) as u64;
                if acc > (0x8000_0000_0000_0000u64 - d) / 10 {
                    big = true;
                } else {
                    acc = acc * 10 + d;
                }
            } else if all_digits && big {
                assert(decimal_value(a.take(k + 1)) >= decimal_value(a.take(k)));
            }
        } else {
            all_digits = false;
        }
        proof {
            assert(is_zero_text(a.take(k + 1)) == (is_zero_text(a.take(k)) && (c == '0' || c
                == '.'))) by {
                if is_zero_text(a.take(k)) && (c == '0' || c == '.') {
                    assert forall|j: int| 0 <= j < k + 1 implies #[trigger] a.take(k + 1)[j]
                        == '0' || a.take(k + 1)[j] == '.' by {
                        if j < k {
                            assert(a.take(k + 1)[j] == a.take(k)[j]);
                        }
                    }
                }
                if is_zero_text(a.take(k + 1)) {
                    assert(a.take(k + 1)[k] == c);
                    assert forall|j: int| 0 <= j < k implies #[trigger] a.take(k)[j] == '0'
                        || a.take(k)[j] == '.' by {
                        assert(a.take(k + 1)[j] == a.take(k)[j]);
                    }
                }
            }
            assert(all_digit_chars(a.take(k + 1)) == (all_digit_chars(a.take(k))
                && is_digit_char(c))) by {
                if all_digit_chars(a.take(k)) && is_digit_char(c) {
                    assert forall|j: int| 0 <= j < k + 1 implies is_digit_char(
                        #[trigger] a.take(k + 1)[j],
                    ) by {
                        if j < k {
                            assert(a.take(k + 1)[j] == a.take(k)[j]);
                        }
                    }
                }
                if all_digit_chars(a.take(k + 1)) {
                    assert(a.take(k + 1)[k] == c);
                    assert forall|j: int| 0 <= j < k implies is_digit_char(
                        #[trigger] a.take(k)[j],
                    ) by {
                        assert(a.take(k + 1)[j] == a.take(k)[j]);
                    }
                }
            }
        }
        i = i + 1;
    }
    assert(a.take(n - start) =~= a);
    if all_zero {
        return numeric_zero_vec();
    }
    if all_digits && !big {
        let m: i64 = if acc == 0x8000_0000_0000_0000u64 {
            i64::MAX
        } else {
            acc as i64
        };
        let v: i64 = if is_negative {
            -m
        } else {
            m
        };
        return encode_i64_fixed_width(v);
    }
    let mag = t.substring_ascii(start, n);
    assert(mag@ == a);
    proof {
        lemma_float_text_in_range(t@);
    }
    encode_float_string(mag, is_negative)
}


// ---------------------------------------------------------------------------
// Arbitrary-precision decimals, held as text
// ---------------------------------------------------------------------------

pub open spec fn decimal_nan_bytes() -> Seq<u8> {
    seq![0xFFu8, 0xFF, 0xFF]
}

pub open spec fn decimal_pos_infinity_bytes() -> Seq<u8> {
    seq![0xFFu8, 0xFF, 0xFE]
}

pub open spec fn decimal_neg_infinity_bytes() -> Seq<u8> {
    seq![0x00u8, 0x00, 0x00]
}

pub open spec fn decimal_zero_bytes() -> Seq<u8> {
    seq![0x80u8]
}

/// Fits sortable decimal bytes into the fixed width: sign, two exponent
/// bytes, then at most thirteen mantissa bytes, padded with `0xFF` after a
/// negative sign and with zeros otherwise.
pub open spec fn spec_fit_decimal_bytes(b: Seq<u8>) -> Seq<u8> {
    if b == decimal_nan_bytes() {
        numeric_nan()
    } else if b == decimal_pos_infinity_bytes() {
        numeric_pos_infinity()
    } else if b == decimal_neg_infinity_bytes() {
        numeric_neg_infinity()
    } else if b == decimal_zero_bytes() {
        numeric_zero()
    } else {
        let e1: u8 = if b.len() >= 3 {
            b[1]
        } else {
            0
        };
        let e2: u8 = if b.len() >= 3 {
            b[2]
        } else {
            0
        };
        let ml: int = if b.len() <= 3 {
            0
        } else if b.len() - 3 > 13 {
            13
        } else {
            b.len() - 3
        };
        let pad: u8 = if b[0] == NUMERIC_SIGN_NEGATIVE {
            0xFF
        } else {
            0
        };
        seq![b[0], e1, e2] + Seq::new(ml as nat, |i: int| b[3 + i]) + fill((13 - ml) as nat, pad)
    }
}

/// A decimal's significant digits without the zeros that end them.
pub open spec fn trim_trailing_zeros(ds: Seq<u8>) -> Seq<u8>
    decreases ds.len(),
{
    if ds.len() > 0 && ds.last() == 0 {
        trim_trailing_zeros(ds.drop_last())
    } else {
        ds
    }
}

/// The sortable bytes of a non-zero decimal: the sign byte, the exponent
/// biased by 16384 as two big-endian bytes, then the digits packed two per
/// byte (the last one padded with a zero digit); for a negative number the
/// exponent and digit bytes are inverted.
pub open spec fn decimal_bytes_form(negative: bool, exponent: int, digits: Seq<u8>) -> Seq<u8> {
    let biased = (exponent + 16384) as u16;
    let hi = (biased / 256) as u8;
    let lo = (biased % 256) as u8;
    if !negative {
        seq![NUMERIC_SIGN_POSITIVE, hi, lo] + bcd_pack(digits)
    } else {
        seq![NUMERIC_SIGN_NEGATIVE, (255 - hi) as u8, (255 - lo) as u8] + complement(bcd_pack(digits))
    }
}

/// The exponents the decimal parser accepts.
pub open spec fn decimal_exponent_ok(e: int) -> bool {
    -16383 <= e <= 16381
}

/// What the decimal parser gives for the display text of a decimal:
/// `NaN`, `Infinity` and `-Infinity` their special bytes; otherwise the
/// text's significant digits (from the first non-zero digit to the last)
/// and its exponent (where the point stands relative to the first
/// significant digit), zero as the single zero sign byte, and nothing when
/// the exponent is out of range.
pub open spec fn plain_decimal_bytes(s: Seq<char>) -> Option<Seq<u8>> {
    if s == decimal_nan_text() {
        Some(decimal_nan_bytes())
    } else if s == decimal_inf_text() {
        Some(decimal_pos_infinity_bytes())
    } else if s == decimal_neg_inf_text() {
        Some(decimal_neg_infinity_bytes())
    } else {
        let st = float_scan(magnitude_text(s));
        if st.digits.len() == 0 {
            Some(decimal_zero_bytes())
        } else if decimal_exponent_ok(final_pos(st)) {
            Some(decimal_bytes_form(text_is_negative(s), final_pos(st), trim_trailing_zeros(st.digits)))
        } else {
            None
        }
    }
}

/// What the decimal parser gives for a text: for the display text of a
/// decimal, as `plain_decimal_bytes` says; for any other text, its named
/// result.
pub open spec fn decimal_parser_bytes(s: Seq<char>) -> Option<Seq<u8>> {
    if decimal_text_ok(s) {
        plain_decimal_bytes(s)
    } else {
        decimal_sortable_bytes(s)
    }
}

/// The fixed-width encoding of a decimal text; a text the decimal parser
/// refuses counts as zero.
pub open spec fn spec_encode_decimal_text(s: Seq<char>) -> Seq<u8> {
    match decimal_parser_bytes(s) {
        Some(b) => spec_fit_decimal_bytes(b),
        None => spec_fit_decimal_bytes(decimal_zero_bytes()),
    }
}

fn bytes_eq3(b: &[u8], x: u8, y: u8, z: u8) -> (r: bool)
    ensures
        r == (b@ == seq![x, y, z]),
{
    if b.len() == 3 && b[0] == x && b[1] == y && b[2] == z {
        assert(b@ =~= seq![x, y, z]);
        true
    } else {
        false
    }
}

/// The display text of a decimal is within the parser's exponent range: it
/// has no exponent marker at all.
pub proof fn lemma_decimal_text_in_range(s: Seq<char>)
    requires
        decimal_text_ok(s),
    ensures
        decimal_parse_in_range(s),
{
    assert forall|i: int| 0 <= i < s.len() && (#[trigger] s[i] == 'e' || s[i] == 'E') implies s.len() - i - 1 <= 9 by {
        if s == decimal_nan_text() || s == decimal_inf_text() || s == decimal_neg_inf_text() {
            assert(s.len() - i - 1 <= 9);
        } else if is_plain_decimal(s) {
            assert(is_digit_char(s[i]) || s[i] == '.');
        } else {
            assert(i != 0);
            assert(s.drop_first()[i - 1] == s[i]);
            assert(is_digit_char(s.drop_first()[i - 1]) || s.drop_first()[i - 1] == '.');
        }
    }
}

/// Encodes a decimal, given by its text, into the fixed-width form.
pub fn encode_number_fixed_width(value: &str) -> (r: Vec<u8>)
    requires
        decimal_parse_in_range(value@),
    ensures
        r@ == spec_encode_decimal_text(value@),
        r@.len() == NUMERIC_FIXED_WIDTH,
{
    let parsed = decimal_from_str_bytes(value);
    proof {
        if parsed.is_some() {
            assert(parsed.unwrap().deep_view() =~= parsed.unwrap()@);
        }
    }
    let bytes = match parsed {
        Some(b) => b,
        None => {
            let zero = "0";
            proof {
                reveal_strlit("0");
                assert(zero@ =~= seq!['0']);
                assert(decimal_parse_in_range(zero@));
            }
            match decimal_from_str_bytes(zero) {
                Some(b) => b,
                None => {
                    assert(false);
                    vec![NUMERIC_SIGN_ZERO]
                },
            }
        },
    };
    assert(bytes@.len() >= 1);
    fit_decimal_bytes(bytes.as_slice())
}

/// Fits the sortable bytes of a decimal into the fixed width.
pub fn fit_decimal_bytes(bytes: &[u8]) -> (r: Vec<u8>)
    requires
        bytes@.len() >= 1,
    ensures
        r@ == spec_fit_decimal_bytes(bytes@),
        r@.len() == NUMERIC_FIXED_WIDTH,
{
    if bytes_eq3(bytes, 0xFF, 0xFF, 0xFF) {
        return numeric_nan_vec();
    }
    if bytes_eq3(bytes, 0xFF, 0xFF, 0xFE) {
        return numeric_pos_infinity_vec();
    }
    if bytes_eq3(bytes, 0x00, 0x00, 0x00) {
        return numeric_neg_infinity_vec();
    }
    if bytes.len() == 1 && bytes[0] == NUMERIC_SIGN_ZERO {
        assert(bytes@ =~= decimal_zero_bytes());
        return numeric_zero_vec();
    }
    assert(bytes@ != decimal_zero_bytes()) by {
        if bytes@ == decimal_zero_bytes() {
            assert(bytes@[0] == 0x80);
        }
    }
    let len = bytes.len();
    let mut result: Vec<u8> = Vec::new();
    result.push(bytes[0]);
    if len >= 3 {
        result.push(bytes[1]);
        result.push(bytes[2]);
    } else {
        result.push(0);
        result.push(0);
    }
    let mantissa_len: usize = if len <= 3 {
        0
    } else if len - 3 > 13 {
        13
    } else {
        len - 3
    };
    let ghost head = result@;
    let mut i: usize = 0;
    assert(result@ =~= head + Seq::new(0, |j: int| bytes@[3 + j]));
    while i < mantissa_len
        invariant
            mantissa_len <= 13,
            3 + mantissa_len <= len || mantissa_len == 0,
            len == bytes@.len(),
            i <= mantissa_len,
            result@ == head + Seq::new(i as nat, |j: int| bytes@[3 + j]),
        decreases mantissa_len - i,
    {
        result.push(bytes[3 + i]);
        assert(result@ =~= head + Seq::new((i + 1) as nat, |j: int| bytes@[3 + j]));
        i = i + 1;
    }
    let pad: u8 = if bytes[0] == NUMERIC_SIGN_NEGATIVE {
        0xFF
    } else {
        0
    };
    let mut tail = fill_vec(13 - mantissa_len, pad);
    result.append(&mut tail);
    assert(result@ =~= spec_fit_decimal_bytes(bytes@));
    result
}


// ---------------------------------------------------------------------------
// Order: the integer encoding sorts bytewise as the integers do
// ---------------------------------------------------------------------------

proof fn lemma_num_digits_monotone(x: nat, y: nat)
    requires
        x <= y,
    ensures
        num_digits(x) <= num_digits(y),
    decreases y,
{
    if y >= 10 && x >= 10 {
        assert(x / 10 <= y / 10) by (nonlinear_arith)
            requires
                x <= y,
        ;
        lemma_num_digits_monotone(x / 10, y / 10);
    }
}

pub(crate) proof fn lemma_below_pow10_num_digits(n: nat)
    ensures
        n < pow10(num_digits(n)),
    decreases n,
{
    if n >= 10 {
        lemma_below_pow10_num_digits(n / 10);
        let p = pow10(num_digits(n / 10));
        assert(pow10(num_digits(n)) == 10 * p);
        assert(n < 10 * p) by (nonlinear_arith)
            requires
                n / 10 < p,
        ;
    } else {
        reveal_with_fuel(pow10, 2);
    }
}

pub(crate) proof fn lemma_digits_first_diff(x: nat, y: nat, d: nat) -> (i: int)
    requires
        x < y,
        y < pow10(d),
    ensures
        first_lower_at(digits_of(x, d), digits_of(y, d), i),
    decreases d,
{
    lemma_digits_of_len(x, d);
    lemma_digits_of_len(y, d);
    if d == 0 {
        assert(false);
        0
    } else {
        let dm = (d - 1) as nat;
        lemma_digits_of_len(x / 10, dm);
        lemma_digits_of_len(y / 10, dm);
        assert(x / 10 <= y / 10) by (nonlinear_arith)
            requires
                x < y,
        ;
        let xs = digits_of(x, d);
        let ys = digits_of(y, d);
        if x / 10 < y / 10 {
            assert(y / 10 < pow10(dm)) by (nonlinear_arith)
                requires
                    y < 10 * pow10(dm),
            ;
            let i = lemma_digits_first_diff(x / 10, y / 10, dm);
            assert forall|j: int| 0 <= j < i implies #[trigger] xs[j] == ys[j] by {
                assert(xs[j] == digits_of(x / 10, dm)[j]);
                assert(ys[j] == digits_of(y / 10, dm)[j]);
            }
            assert(xs[i] == digits_of(x / 10, dm)[i]);
            assert(ys[i] == digits_of(y / 10, dm)[i]);
            i
        } else {
            assert(x % 10 < y % 10) by (nonlinear_arith)
                requires
                    x < y,
                    x / 10 == y / 10,
            ;
            assert forall|j: int| 0 <= j < d - 1 implies #[trigger] xs[j] == ys[j] by {
                assert(xs[j] == digits_of(x / 10, dm)[j]);
                assert(ys[j] == digits_of(y / 10, dm)[j]);
            }
            (d - 1) as int
        }
    }
}

pub(crate) proof fn lemma_bcd_first_diff(a: Seq<u8>, b: Seq<u8>, i: int)
    requires
        a.len() == b.len(),
        forall|j: int| 0 <= j < a.len() ==> #[trigger] a[j] < 10,
        forall|j: int| 0 <= j < b.len() ==> #[trigger] b[j] < 10,
        first_lower_at(a, b, i),
    ensures
        first_lower_at(bcd_pack(a), bcd_pack(b), i / 2),
{
    let pa = bcd_pack(a);
    let pb = bcd_pack(b);
    let k = i / 2;
    assert forall|j: int| 0 <= j < k implies #[trigger] pa[j] == pb[j] by {
        assert(a[2 * j] == b[2 * j]);
        if 2 * j + 1 < a.len() {
            assert(a[2 * j + 1] == b[2 * j + 1]);
        }
    }
    let ah = digit_or_zero(a, 2 * k);
    let al = digit_or_zero(a, 2 * k + 1);
    let bh = digit_or_zero(b, 2 * k);
    let bl = digit_or_zero(b, 2 * k + 1);
    assert(ah < 10 && al < 10 && bh < 10 && bl < 10);
    if i == 2 * k {
        assert(ah < bh);
        assert(ah * 16 + al < bh * 16 + bl) by (nonlinear_arith)
            requires
                ah < bh,
                al < 10,
                bl < 10,
        ;
    } else {
        assert(ah == bh);
        assert(al < bl);
    }
}

pub(crate) proof fn lemma_complement_first(a: Seq<u8>, b: Seq<u8>, i: int)
    requires
        first_lower_at(a, b, i),
    ensures
        first_lower_at(complement(b), complement(a), i),
{
    assert forall|j: int| 0 <= j < i implies #[trigger] complement(b)[j] == complement(a)[j] by {
        assert(a[j] == b[j]);
    }
}

pub(crate) proof fn lemma_digits_count_bound(n: nat)
    requires
        n <= two_pow_63(),
    ensures
        1 <= num_digits(n) <= 19,
{
    assert(pow10(19) == 10_000_000_000_000_000_000nat) by {
        reveal_with_fuel(pow10, 20);
    }
    lemma_num_digits_le(n, 19);
}

/// Two non-zero magnitudes with the same sign and the same digit count: the
/// mantissas first differ where the digits do.
proof fn lemma_same_width_order(negative: bool, x: nat, y: nat)
    requires
        0 < x < y,
        y <= two_pow_63(),
        num_digits(x) == num_digits(y),
    ensures
        negative ==> lex_lt(spec_encode_magnitude(true, y), spec_encode_magnitude(true, x)),
        !negative ==> lex_lt(spec_encode_magnitude(false, x), spec_encode_magnitude(false, y)),
{
    let d = num_digits(y);
    lemma_digits_count_bound(y);
    lemma_below_pow10_num_digits(y);
    let i = lemma_digits_first_diff(x, y, d);
    let dx = digits_of(x, d);
    let dy = digits_of(y, d);
    lemma_digits_of_len(x, d);
    lemma_digits_of_len(y, d);
    lemma_digits_of_bound(x, d);
    lemma_digits_of_bound(y, d);
    lemma_bcd_first_diff(dx, dy, i);
    let bx = bcd_pack(dx);
    let by_ = bcd_pack(dy);
    let e = (0x4000 + d) as u16;
    let hi = (e / 256) as u8;
    let lo = (e % 256) as u8;
    let pad_len = (13 - bx.len()) as nat;
    if negative {
        lemma_complement_first(bx, by_, i / 2);
        lemma_first_lower_extend(
            seq![NUMERIC_SIGN_NEGATIVE, (255 - hi) as u8, (255 - lo) as u8],
            complement(by_),
            complement(bx),
            i / 2,
            fill(pad_len, 255),
            fill(pad_len, 255),
        );
    } else {
        lemma_first_lower_extend(
            seq![NUMERIC_SIGN_POSITIVE, hi, lo],
            bx,
            by_,
            i / 2,
            fill(pad_len, 0),
            fill(pad_len, 0),
        );
    }
}

/// Two non-zero magnitudes with different digit counts: the exponent bytes
/// decide.
proof fn lemma_wider_order(negative: bool, x: nat, y: nat)
    requires
        0 < x < y,
        y <= two_pow_63(),
        num_digits(x) < num_digits(y),
    ensures
        negative ==> lex_lt(spec_encode_magnitude(true, y), spec_encode_magnitude(true, x)),
        !negative ==> lex_lt(spec_encode_magnitude(false, x), spec_encode_magnitude(false, y)),
{
    lemma_digits_count_bound(y);
    lemma_digits_count_bound(x);
    let ex = spec_encode_magnitude(negative, x);
    let ey = spec_encode_magnitude(negative, y);
    let dx = num_digits(x);
    let dy = num_digits(y);
    assert(((0x4000 + dx) as u16) / 256 == 0x40);
    assert(((0x4000 + dy) as u16) / 256 == 0x40);
    assert(((0x4000 + dx) as u16) % 256 == dx);
    assert(((0x4000 + dy) as u16) % 256 == dy);
    if negative {
        assert(first_lower_at(ey, ex, 2));
        lemma_lex_lt_at(ey, ex, 2);
    } else {
        assert(first_lower_at(ex, ey, 2));
        lemma_lex_lt_at(ex, ey, 2);
    }
}

proof fn lemma_magnitude_order(negative: bool, x: nat, y: nat)
    requires
        0 < x < y,
        y <= two_pow_63(),
    ensures
        negative ==> lex_lt(spec_encode_magnitude(true, y), spec_encode_magnitude(true, x)),
        !negative ==> lex_lt(spec_encode_magnitude(false, x), spec_encode_magnitude(false, y)),
{
    lemma_num_digits_monotone(x, y);
    if num_digits(x) == num_digits(y) {
        lemma_same_width_order(negative, x, y);
    } else {
        lemma_wider_order(negative, x, y);
    }
}

/// Law: for integers, the fixed-width encoding sorts bytewise exactly as the
/// integers sort numerically.
pub proof fn law_int_encoding_preserves_order(a: i64, b: i64)
    requires
        a < b,
    ensures
        lex_lt(spec_encode_int(a as int), spec_encode_int(b as int)),
{
    let ea = spec_encode_int(a as int);
    let eb = spec_encode_int(b as int);
    if a < 0 && b < 0 {
        lemma_magnitude_order(true, abs_int(b as int), abs_int(a as int));
    } else if a > 0 && b > 0 {
        lemma_magnitude_order(false, abs_int(a as int), abs_int(b as int));
    } else {
        assert(first_lower_at(ea, eb, 0));
        lemma_lex_lt_at(ea, eb, 0);
    }
}


proof fn lemma_numeric_fixed_len(negative: bool, exp: u16, mant: Seq<u8>)
    requires
        mant.len() <= 13,
    ensures
        numeric_fixed(negative, exp, mant).len() == 16,
{
}

pub proof fn lemma_encode_int_len(n: int)
    requires
        i64::MIN <= n <= i64::MAX,
    ensures
        spec_encode_int(n).len() == 16,
{
    if n != 0 {
        let a = abs_int(n);
        lemma_digits_count_bound(a);
        lemma_digits_of_len(a, num_digits(a));
        lemma_numeric_fixed_len(n < 0, (0x4000 + num_digits(a)) as u16, bcd_pack(digits_of(a, num_digits(a))));
    }
}

pub proof fn lemma_encode_float_text_len(t: Seq<char>)
    ensures
        spec_encode_float_text(t).len() == 16,
{
    if t != nan_text() && t != inf_text() && t != neg_inf_text() {
        let a = magnitude_text(t);
        if !is_zero_text(a) {
            if all_digit_chars(a) && decimal_value(a) <= two_pow_63() {
                let m: int = if decimal_value(a) == two_pow_63() {
                    i64::MAX as int
                } else {
                    decimal_value(a) as int
                };
                lemma_encode_int_len(if text_is_negative(t) { -m } else { m });
            } else {
                let st = float_scan(a);
                if st.digits.len() > 0 {
                    lemma_numeric_fixed_len(text_is_negative(t), (0x4000 + final_pos(st)) as u16, take_at_most(bcd_pack(st.digits), 13));
                }
            }
        }
    }
}

pub proof fn lemma_encode_decimal_text_len(s: Seq<char>)
    ensures
        spec_encode_decimal_text(s).len() == 16,
{
}

} // verus!
