//! Numbers sort by value in the fixed-width encoding, integers and doubles
//! alike: every non-zero finite number encodes as its sign, its decimal
//! exponent and its significant digits, and those sort as the values do.

use vstd::prelude::*;
use crate::numeric::{
    bcd_pack, complement, digit_or_zero, digits_of, fill, numeric_fixed, pow10, take_at_most,
    lemma_bcd_first_diff, lemma_complement_first, lemma_digits_first_diff, lemma_digits_of_len,
    lemma_pow10_pos, NUMERIC_SIGN_NEGATIVE, NUMERIC_SIGN_POSITIVE,
};
use crate::numeric::{
    abs_int, all_digit_chars, decimal_value, digit_value, final_pos, float_scan, is_zero_text,
    magnitude_text, num_digits, numeric_zero, spec_encode_float_text, spec_encode_int,
    spec_encode_magnitude, text_is_negative, two_pow_63, lemma_digits_of_bound, lemma_digits_of_index,
    lemma_digits_count_bound, lemma_below_pow10_num_digits, lemma_float_scan_bounds, numeric_nan,
    numeric_pos_infinity, numeric_neg_infinity, decimal_bytes_form, decimal_exponent_ok, decimal_zero_bytes,
    decimal_nan_bytes, decimal_pos_infinity_bytes, decimal_neg_infinity_bytes, plain_decimal_bytes,
    spec_fit_decimal_bytes, spec_encode_decimal_text, trim_trailing_zeros,
};
use crate::encoding::{spec_encode_ordered, TAG_NUMBER};
use crate::order::{first_lower_at, lex_lt, lemma_lex_lt_at, lemma_first_lower_extend, lemma_lex_lt_prepend, lemma_lex_lt_irreflexive};
use crate::value::{ValueModel, decimal_text_ok, decimal_nan_text, decimal_inf_text, decimal_neg_inf_text, float_text_ok, is_digit_char, is_plain_decimal, nan_text, inf_text, neg_inf_text};

verus! {

/// The number a sequence of decimal digits spells, most significant first.
pub open spec fn dval(ds: Seq<u8>) -> nat
    decreases ds.len(),
{
    if ds.len() == 0 {
        0
    } else {
        10 * dval(ds.drop_last()) + ds.last() as nat
    }
}

pub open spec fn is_digits(ds: Seq<u8>) -> bool {
    forall|i: int| 0 <= i < ds.len() ==> #[trigger] ds[i] < 10
}

/// No digit past the 26th (what the mantissa holds) is significant.
pub open spec fn sig_fits(ds: Seq<u8>) -> bool {
    forall|i: int| 26 <= i < ds.len() ==> #[trigger] ds[i] == 0
}

/// The first 26 digits, padded with zeros.
pub open spec fn pad26(ds: Seq<u8>) -> Seq<u8> {
    Seq::new(26, |i: int| digit_or_zero(ds, i))
}

/// A non-zero number given by its significant digits (the first non-zero)
/// and its decimal exponent: the value is `0.d1 d2 ... * 10^e`.
pub open spec fn norm_enc(negative: bool, e: int, ds: Seq<u8>) -> Seq<u8> {
    numeric_fixed(negative, (0x4000 + e) as u16, take_at_most(bcd_pack(ds), 13))
}

pub proof fn lemma_pow10_add(a: nat, b: nat)
    ensures
        pow10(a + b) == pow10(a) * pow10(b),
    decreases a,
{
    if a > 0 {
        lemma_pow10_add((a - 1) as nat, b);
        assert(pow10(a + b) == 10 * pow10((a - 1 + b) as nat));
        assert(pow10(a) == 10 * pow10((a - 1) as nat));
        assert(10 * (pow10((a - 1) as nat) * pow10(b)) == (10 * pow10((a - 1) as nat)) * pow10(b)) by (nonlinear_arith);
    } else {
        assert(pow10(0) == 1);
        assert(a + b == b);
    }
}

proof fn lemma_digits_of_dval(ds: Seq<u8>)
    requires
        is_digits(ds),
    ensures
        digits_of(dval(ds), ds.len()) == ds,
        dval(ds) < pow10(ds.len()),
    decreases ds.len(),
{
    if ds.len() > 0 {
        let init = ds.drop_last();
        assert(is_digits(init)) by {
            assert forall|i: int| 0 <= i < init.len() implies #[trigger] init[i] < 10 by {
                assert(init[i] == ds[i]);
            }
        }
        lemma_digits_of_dval(init);
        let n = dval(ds);
        let l = ds.last() as nat;
        assert(l < 10);
        assert(n / 10 == dval(init) && n % 10 == l) by (nonlinear_arith)
            requires
                n == 10 * dval(init) + l,
                l < 10,
        ;
        assert(digits_of(n, ds.len()) == digits_of(n / 10, (ds.len() - 1) as nat).push((n % 10) as u8));
        assert(digits_of(n, ds.len()) =~= ds);
        let p = pow10((ds.len() - 1) as nat);
        assert(pow10(ds.len()) == 10 * p);
        assert(n < 10 * p) by (nonlinear_arith)
            requires
                n == 10 * dval(init) + l,
                l < 10,
                dval(init) < p,
        ;
    }
}

proof fn lemma_dval_lower(ds: Seq<u8>)
    requires
        ds.len() >= 1,
        ds[0] >= 1,
    ensures
        dval(ds) >= pow10((ds.len() - 1) as nat),
    decreases ds.len(),
{
    if ds.len() == 1 {
        assert(ds.drop_last().len() == 0);
        assert(pow10(0) == 1);
    } else {
        let init = ds.drop_last();
        assert(init[0] == ds[0]);
        lemma_dval_lower(init);
        assert(pow10((ds.len() - 1) as nat) == 10 * pow10((ds.len() - 2) as nat));
    }
}

proof fn lemma_dval_zeros(ds: Seq<u8>, k: nat)
    ensures
        dval(ds + fill(k, 0)) == dval(ds) * pow10(k),
    decreases k,
{
    if k == 0 {
        assert(ds + fill(0, 0) =~= ds);
        assert(pow10(0) == 1);
    } else {
        lemma_dval_zeros(ds, (k - 1) as nat);
        let s = ds + fill(k, 0);
        assert(s.drop_last() =~= ds + fill((k - 1) as nat, 0));
        assert(s.last() == 0);
        assert(pow10(k) == 10 * pow10((k - 1) as nat));
        assert(10 * (dval(ds) * pow10((k - 1) as nat)) == dval(ds) * (10 * pow10((k - 1) as nat))) by (nonlinear_arith);
    }
}

/// The padded digits hold the number up to a power of ten, and have 26
/// digits with a non-zero first one.
proof fn lemma_pad26(ds: Seq<u8>)
    requires
        is_digits(ds),
        ds.len() >= 1,
        ds[0] >= 1,
        sig_fits(ds),
    ensures
        is_digits(pad26(ds)),
        pad26(ds)[0] >= 1,
        dval(ds) * pow10(26) == dval(pad26(ds)) * pow10(ds.len()),
        pow10(25) <= dval(pad26(ds)) < pow10(26),
        digits_of(dval(pad26(ds)), 26) == pad26(ds),
{
    let p = pad26(ds);
    assert(is_digits(p)) by {
        assert forall|i: int| 0 <= i < p.len() implies #[trigger] p[i] < 10 by {
            if i < ds.len() {
                assert(ds[i] < 10);
            }
        }
    }
    lemma_digits_of_dval(p);
    assert(p[0] == ds[0]);
    lemma_dval_lower(p);
    if ds.len() <= 26 {
        let k = (26 - ds.len()) as nat;
        assert(p =~= ds + fill(k, 0));
        lemma_dval_zeros(ds, k);
        lemma_pow10_add(k, ds.len());
        assert(dval(ds) * pow10(26) == dval(ds) * (pow10(k) * pow10(ds.len())));
        assert(dval(ds) * (pow10(k) * pow10(ds.len())) == (dval(ds) * pow10(k)) * pow10(ds.len())) by (nonlinear_arith);
    } else {
        let k = (ds.len() - 26) as nat;
        assert(ds =~= p + fill(k, 0)) by {
            assert forall|i: int| 0 <= i < ds.len() implies ds[i] == (p + fill(k, 0))[i] by {
                if i >= 26 {
                    assert(ds[i] == 0);
                }
            }
        }
        lemma_dval_zeros(p, k);
        lemma_pow10_add(k, 26);
        assert(26 + k == ds.len());
        assert((dval(p) * pow10(k)) * pow10(26) == dval(p) * (pow10(k) * pow10(26))) by (nonlinear_arith);
    }
}

/// The mantissa, cut at 13 bytes and padded, is the packed padded digits.
proof fn lemma_norm_mantissa(negative: bool, e: int, ds: Seq<u8>)
    requires
        ds.len() >= 1,
    ensures
        norm_enc(negative, e, ds) == numeric_fixed(negative, (0x4000 + e) as u16, bcd_pack(pad26(ds))),
{
    let m = take_at_most(bcd_pack(ds), 13);
    let big = bcd_pack(pad26(ds));
    assert(big.len() == 13);
    assert(m.len() <= 13);
    let z = m + fill((13 - m.len()) as nat, 0);
    assert forall|j: int| 0 <= j < 13 implies #[trigger] z[j] == big[j] by {
        assert(pad26(ds)[2 * j] == digit_or_zero(ds, 2 * j));
        assert(pad26(ds)[2 * j + 1] == digit_or_zero(ds, 2 * j + 1));
        if j < m.len() {
            assert(m[j] == bcd_pack(ds)[j]);
        } else {
            assert(2 * j >= ds.len());
        }
    }
    assert(z =~= big);
    assert(big + fill(0, 0) =~= big);
    let zc = complement(m) + fill((13 - m.len()) as nat, 255);
    assert(zc =~= complement(big)) by {
        assert forall|j: int| 0 <= j < 13 implies #[trigger] zc[j] == complement(big)[j] by {
            assert(z[j] == big[j]);
        }
    }
    assert(complement(big) + fill(0, 255) =~= complement(big));
}

/// Exponent bytes: a smaller biased exponent has smaller bytes (and larger
/// complemented bytes).
proof fn lemma_exp_bytes(negative: bool, e1: int, e2: int, rest1: Seq<u8>, rest2: Seq<u8>)
    requires
        0 <= 0x4000 + e1 < 0x4000 + e2 <= 0xFFFF,
    ensures
        !negative ==> lex_lt(
            seq![NUMERIC_SIGN_POSITIVE, ((0x4000 + e1) as u16 / 256) as u8, ((0x4000 + e1) as u16 % 256) as u8] + rest1,
            seq![NUMERIC_SIGN_POSITIVE, ((0x4000 + e2) as u16 / 256) as u8, ((0x4000 + e2) as u16 % 256) as u8] + rest2,
        ),
        negative ==> lex_lt(
            seq![NUMERIC_SIGN_NEGATIVE, (255 - ((0x4000 + e2) as u16 / 256) as u8) as u8, (255 - ((0x4000 + e2) as u16 % 256) as u8) as u8] + rest2,
            seq![NUMERIC_SIGN_NEGATIVE, (255 - ((0x4000 + e1) as u16 / 256) as u8) as u8, (255 - ((0x4000 + e1) as u16 % 256) as u8) as u8] + rest1,
        ),
{
    let u = (0x4000 + e1) as u16;
    let v = (0x4000 + e2) as u16;
    assert(u < v);
    assert((u / 256 < v / 256) || (u / 256 == v / 256 && u % 256 < v % 256)) by (nonlinear_arith)
        requires
            u < v,
    ;
    let a = if negative {
        seq![NUMERIC_SIGN_NEGATIVE, (255 - (v / 256) as u8) as u8, (255 - (v % 256) as u8) as u8] + rest2
    } else {
        seq![NUMERIC_SIGN_POSITIVE, (u / 256) as u8, (u % 256) as u8] + rest1
    };
    let b = if negative {
        seq![NUMERIC_SIGN_NEGATIVE, (255 - (u / 256) as u8) as u8, (255 - (u % 256) as u8) as u8] + rest1
    } else {
        seq![NUMERIC_SIGN_POSITIVE, (v / 256) as u8, (v % 256) as u8] + rest2
    };
    assert(u / 256 < 256 && v / 256 < 256);
    if u / 256 < v / 256 {
        assert(first_lower_at(a, b, 1));
        lemma_lex_lt_at(a, b, 1);
    } else {
        assert(first_lower_at(a, b, 2));
        lemma_lex_lt_at(a, b, 2);
    }
}

/// The order of normal forms: for non-zero magnitudes `n1 / 10^f1 <
/// n2 / 10^f2`, each given by significant digits and a decimal exponent
/// (`|ds| == e + f`), the positive encodings sort in the same order and the
/// negative ones in the opposite order.
pub proof fn lemma_norm_order(e1: int, d1: Seq<u8>, f1: nat, e2: int, d2: Seq<u8>, f2: nat)
    requires
        is_digits(d1),
        is_digits(d2),
        d1.len() >= 1 && d1[0] >= 1,
        d2.len() >= 1 && d2[0] >= 1,
        sig_fits(d1),
        sig_fits(d2),
        d1.len() == e1 + f1,
        d2.len() == e2 + f2,
        -0x4000 <= e1 <= 0xBFFF,
        -0x4000 <= e2 <= 0xBFFF,
        dval(d1) * pow10(f2) < dval(d2) * pow10(f1),
    ensures
        lex_lt(norm_enc(false, e1, d1), norm_enc(false, e2, d2)),
        lex_lt(norm_enc(true, e2, d2), norm_enc(true, e1, d1)),
{
    lemma_pad26(d1);
    lemma_pad26(d2);
    let p1 = dval(pad26(d1));
    let p2 = dval(pad26(d2));
    let n1 = dval(d1);
    let n2 = dval(d2);
    let k1 = (d1.len() + f2) as nat;
    let k2 = (d2.len() + f1) as nat;
    lemma_pow10_add(d1.len(), f2);
    lemma_pow10_add(d2.len(), f1);
    lemma_pow10_pos(26);
    lemma_pow10_pos(f1);
    lemma_pow10_pos(f2);
    // p1 * 10^k1 < p2 * 10^k2
    assert(p1 * pow10(k1) < p2 * pow10(k2)) by (nonlinear_arith)
        requires
            n1 * pow10(f2) < n2 * pow10(f1),
            n1 * pow10(26) == p1 * pow10(d1.len()),
            n2 * pow10(26) == p2 * pow10(d2.len()),
            pow10(k1) == pow10(d1.len()) * pow10(f2),
            pow10(k2) == pow10(d2.len()) * pow10(f1),
            pow10(26) > 0,
    ;
    if k1 > k2 {
        let g = (k1 - k2 - 1) as nat;
        lemma_pow10_add(k2 + 1, g);
        lemma_pow10_add(25, k2 + 1);
        lemma_pow10_add(1, k2);
        lemma_pow10_pos(g);
        lemma_pow10_pos(k2);
        assert(pow10(26) == pow10(25) * 10) by {
            lemma_pow10_add(25, 1);
            reveal_with_fuel(pow10, 2);
        }
        assert(pow10((k2 + 1) as nat) == 10 * pow10(k2)) by {
            reveal_with_fuel(pow10, 2);
        }
        assert(p1 * pow10(k1) >= p2 * pow10(k2)) by (nonlinear_arith)
            requires
                pow10(k1) == pow10((k2 + 1) as nat) * pow10(g),
                pow10(g) >= 1,
                pow10((k2 + 1) as nat) == 10 * pow10(k2),
                p1 >= pow10(25),
                p2 < pow10(26),
                pow10(26) == pow10(25) * 10,
                pow10(k2) > 0,
        ;
        assert(false);
    }
    assert(e1 <= e2);
    let m1 = bcd_pack(pad26(d1));
    let m2 = bcd_pack(pad26(d2));
    lemma_norm_mantissa(false, e1, d1);
    lemma_norm_mantissa(false, e2, d2);
    lemma_norm_mantissa(true, e1, d1);
    lemma_norm_mantissa(true, e2, d2);
    assert(m1.len() == 13 && m2.len() == 13);
    assert(fill(0, 0) =~= Seq::<u8>::empty());
    assert(fill(0, 255) =~= Seq::<u8>::empty());
    if e1 < e2 {
        lemma_exp_bytes(false, e1, e2, m1 + fill(0, 0), m2 + fill(0, 0));
        lemma_exp_bytes(true, e1, e2, complement(m1) + fill(0, 255), complement(m2) + fill(0, 255));
    } else {
        assert(k1 == k2);
        lemma_pow10_pos(k1);
        assert(p1 < p2) by (nonlinear_arith)
            requires
                p1 * pow10(k1) < p2 * pow10(k1),
                pow10(k1) > 0,
        ;
        let i = lemma_digits_first_diff(p1, p2, 26);
        lemma_digits_of_len(p1, 26);
        lemma_bcd_first_diff(pad26(d1), pad26(d2), i);
        let e = (0x4000 + e1) as u16;
        let hi = (e / 256) as u8;
        let lo = (e % 256) as u8;
        lemma_first_lower_extend(seq![NUMERIC_SIGN_POSITIVE, hi, lo], m1, m2, i / 2, fill(0, 0), fill(0, 0));
        lemma_complement_first(m1, m2, i / 2);
        lemma_first_lower_extend(
            seq![NUMERIC_SIGN_NEGATIVE, (255 - hi) as u8, (255 - lo) as u8],
            complement(m2),
            complement(m1),
            i / 2,
            fill(0, 255),
            fill(0, 255),
        );
    }
}

/// Equal magnitudes in normal form encode alike.
pub proof fn lemma_norm_equal(negative: bool, e1: int, d1: Seq<u8>, f1: nat, e2: int, d2: Seq<u8>, f2: nat)
    requires
        is_digits(d1),
        is_digits(d2),
        d1.len() >= 1 && d1[0] >= 1,
        d2.len() >= 1 && d2[0] >= 1,
        sig_fits(d1),
        sig_fits(d2),
        d1.len() == e1 + f1,
        d2.len() == e2 + f2,
        dval(d1) * pow10(f2) == dval(d2) * pow10(f1),
    ensures
        norm_enc(negative, e1, d1) == norm_enc(negative, e2, d2),
{
    lemma_pad26(d1);
    lemma_pad26(d2);
    let p1 = dval(pad26(d1));
    let p2 = dval(pad26(d2));
    let n1 = dval(d1);
    let n2 = dval(d2);
    let k1 = (d1.len() + f2) as nat;
    let k2 = (d2.len() + f1) as nat;
    lemma_pow10_add(d1.len(), f2);
    lemma_pow10_add(d2.len(), f1);
    lemma_pow10_pos(26);
    assert(p1 * pow10(k1) == p2 * pow10(k2)) by (nonlinear_arith)
        requires
            n1 * pow10(f2) == n2 * pow10(f1),
            n1 * pow10(26) == p1 * pow10(d1.len()),
            n2 * pow10(26) == p2 * pow10(d2.len()),
            pow10(k1) == pow10(d1.len()) * pow10(f2),
            pow10(k2) == pow10(d2.len()) * pow10(f1),
            pow10(26) > 0,
    ;
    assert(pow10(26) == pow10(25) * 10) by {
        lemma_pow10_add(25, 1);
        reveal_with_fuel(pow10, 2);
    }
    if k1 > k2 {
        let g = (k1 - k2 - 1) as nat;
        lemma_pow10_add(k2 + 1, g);
        lemma_pow10_pos(g);
        lemma_pow10_pos(k2);
        assert(pow10((k2 + 1) as nat) == 10 * pow10(k2)) by {
            reveal_with_fuel(pow10, 2);
            lemma_pow10_add(1, k2);
        }
        assert(p1 * pow10(k1) > p2 * pow10(k2)) by (nonlinear_arith)
            requires
                pow10(k1) == pow10((k2 + 1) as nat) * pow10(g),
                pow10(g) >= 1,
                pow10((k2 + 1) as nat) == 10 * pow10(k2),
                p1 >= pow10(25),
                p2 < pow10(26),
                pow10(26) == pow10(25) * 10,
                pow10(k2) > 0,
        ;
        assert(false);
    }
    if k2 > k1 {
        let g = (k2 - k1 - 1) as nat;
        lemma_pow10_add(k1 + 1, g);
        lemma_pow10_pos(g);
        lemma_pow10_pos(k1);
        assert(pow10((k1 + 1) as nat) == 10 * pow10(k1)) by {
            reveal_with_fuel(pow10, 2);
            lemma_pow10_add(1, k1);
        }
        assert(p2 * pow10(k2) > p1 * pow10(k1)) by (nonlinear_arith)
            requires
                pow10(k2) == pow10((k1 + 1) as nat) * pow10(g),
                pow10(g) >= 1,
                pow10((k1 + 1) as nat) == 10 * pow10(k1),
                p2 >= pow10(25),
                p1 < pow10(26),
                pow10(26) == pow10(25) * 10,
                pow10(k1) > 0,
        ;
        assert(false);
    }
    lemma_pow10_pos(k1);
    assert(p1 == p2) by (nonlinear_arith)
        requires
            p1 * pow10(k1) == p2 * pow10(k1),
            pow10(k1) > 0,
    ;
    assert(pad26(d1) == pad26(d2));
    lemma_norm_mantissa(negative, e1, d1);
    lemma_norm_mantissa(negative, e2, d2);
}

// ---------------------------------------------------------------------------
// The value of a number: sign, digits read as one number, digits after the point
// ---------------------------------------------------------------------------

/// The digits of a text read as one number, the point skipped.
pub open spec fn text_num(s: Seq<char>) -> nat
    decreases s.len(),
{
    if s.len() == 0 {
        0
    } else if is_digit_char(s.last()) {
        10 * text_num(s.drop_last()) + digit_value(s.last()) as nat
    } else {
        text_num(s.drop_last())
    }
}

pub open spec fn point_in(s: Seq<char>) -> bool {
    exists|i: int| 0 <= i < s.len() && s[i] == '.'
}

/// How many digits follow the point.
pub open spec fn text_frac(s: Seq<char>) -> nat
    decreases s.len(),
{
    if s.len() == 0 {
        0
    } else if is_digit_char(s.last()) && point_in(s.drop_last()) {
        text_frac(s.drop_last()) + 1
    } else {
        text_frac(s.drop_last())
    }
}

/// Digits and points only.
pub open spec fn digits_and_points(s: Seq<char>) -> bool {
    forall|i: int| 0 <= i < s.len() ==> is_digit_char(#[trigger] s[i]) || s[i] == '.'
}

/// An integer, or a double that is neither NaN nor infinite.
pub open spec fn finite_number(v: ValueModel) -> bool {
    match v {
        ValueModel::Int(_) => true,
        ValueModel::Float(t) => float_text_ok(t) && t != nan_text() && t != inf_text() && t != neg_inf_text(),
        ValueModel::Decimal(d) => decimal_text_ok(d) && d != decimal_nan_text() && d != decimal_inf_text() && d
            != decimal_neg_inf_text(),
        _ => false,
    }
}

pub open spec fn number_negative(v: ValueModel) -> bool {
    match v {
        ValueModel::Int(n) => n < 0,
        ValueModel::Float(t) => text_is_negative(t),
        ValueModel::Decimal(d) => text_is_negative(d),
        _ => false,
    }
}

/// The magnitude's digits read as one number.
pub open spec fn number_digits(v: ValueModel) -> nat {
    match v {
        ValueModel::Int(n) => abs_int(n as int),
        ValueModel::Float(t) => text_num(magnitude_text(t)),
        ValueModel::Decimal(d) => text_num(magnitude_text(d)),
        _ => 0,
    }
}

/// How many of those digits stand after the point.
pub open spec fn number_frac(v: ValueModel) -> nat {
    match v {
        ValueModel::Int(_) => 0,
        ValueModel::Float(t) => text_frac(magnitude_text(t)),
        ValueModel::Decimal(d) => text_frac(magnitude_text(d)),
        _ => 0,
    }
}

/// `v` is less than `w` as numbers: the magnitudes `n / 10^f` compared
/// over a common denominator, with their signs.
pub open spec fn number_lt(v: ValueModel, w: ValueModel) -> bool {
    let a = number_digits(v) * pow10(number_frac(w));
    let b = number_digits(w) * pow10(number_frac(v));
    let sa: int = if number_negative(v) {
        -a
    } else {
        a as int
    };
    let sb: int = if number_negative(w) {
        -b
    } else {
        b as int
    };
    sa < sb
}

/// A number whose encoding keeps it apart from its neighbours: at most 26
/// significant digits (the mantissa's width; a double displays at most
/// 17); a double other than the integer 2^63, which the encoding saturates
/// to `i64::MAX`; a decimal with an exponent the decimal parser accepts.
pub open spec fn number_fits(v: ValueModel) -> bool {
    match v {
        ValueModel::Float(t) => {
            let a = magnitude_text(t);
            &&& sig_fits(float_scan(a).digits)
            &&& !(all_digit_chars(a) && decimal_value(a) == two_pow_63())
        },
        ValueModel::Decimal(d) => {
            let st = float_scan(magnitude_text(d));
            &&& sig_fits(st.digits)
            &&& (st.digits.len() > 0 ==> decimal_exponent_ok(final_pos(st)))
        },
        _ => true,
    }
}

proof fn lemma_scan_value(s: Seq<char>)
    requires
        digits_and_points(s),
    ensures
        dval(float_scan(s).digits) == text_num(s),
        float_scan(s).found_decimal == point_in(s),
        text_frac(s) + float_scan(s).decimal_pos == float_scan(s).leading_zeros + float_scan(s).digits.len(),
        float_scan(s).digits.len() > 0 ==> float_scan(s).digits[0] >= 1,
        float_scan(s).leading_zeros > 0 ==> float_scan(s).decimal_pos == 0 && float_scan(s).found_decimal,
        float_scan(s).digits.len() == 0 ==> float_scan(s).decimal_pos == 0,
        is_digits(float_scan(s).digits),
        !float_scan(s).in_exponent,
        float_scan(s).exponent == 0,
        !float_scan(s).exp_negative,
    decreases s.len(),
{
    if s.len() > 0 {
        let init = s.drop_last();
        assert(digits_and_points(init)) by {
            assert forall|i: int| 0 <= i < init.len() implies is_digit_char(#[trigger] init[i]) || init[i] == '.' by {
                assert(init[i] == s[i]);
            }
        }
        lemma_scan_value(init);
        let c = s.last();
        assert(is_digit_char(c) || c == '.');
        let st = float_scan(init);
        assert(point_in(s) == (point_in(init) || c == '.')) by {
            if point_in(init) {
                let i = choose|i: int| 0 <= i < init.len() && init[i] == '.';
                assert(s[i] == '.');
            }
            if c == '.' {
                assert(s[s.len() - 1] == '.');
            }
            if point_in(s) {
                let i = choose|i: int| 0 <= i < s.len() && s[i] == '.';
                if i < s.len() - 1 {
                    assert(init[i] == '.');
                }
            }
        }
        if is_digit_char(c) {
            let d = digit_value(c);
            assert(d < 10);
            let st2 = float_scan(s);
            if d == 0 && st.digits.len() == 0 && st.found_decimal {
            } else if d != 0 || st.digits.len() > 0 {
                assert(st2.digits == st.digits.push(d));
                assert(st2.digits.drop_last() =~= st.digits);
                assert(is_digits(st2.digits)) by {
                    assert forall|i: int| 0 <= i < st2.digits.len() implies #[trigger] st2.digits[i] < 10 by {
                        if i < st.digits.len() {
                            assert(st2.digits[i] == st.digits[i]);
                        }
                    }
                }
                if st.digits.len() > 0 {
                    assert(st2.digits[0] == st.digits[0]);
                }
            } else {
                assert(st.digits =~= Seq::<u8>::empty());
            }
        }
    }
}

proof fn lemma_digit_text_value(s: Seq<char>)
    requires
        all_digit_chars(s),
    ensures
        text_num(s) == decimal_value(s),
        text_frac(s) == 0,
        !point_in(s),
    decreases s.len(),
{
    if s.len() > 0 {
        let init = s.drop_last();
        assert(all_digit_chars(init)) by {
            assert forall|i: int| 0 <= i < init.len() implies is_digit_char(#[trigger] init[i]) by {
                assert(init[i] == s[i]);
            }
        }
        lemma_digit_text_value(init);
        assert(is_digit_char(s[s.len() - 1]));
        if point_in(s) {
            let i = choose|i: int| 0 <= i < s.len() && s[i] == '.';
            assert(is_digit_char(s[i]));
        }
    }
}

proof fn lemma_zero_text_value(s: Seq<char>)
    requires
        digits_and_points(s),
    ensures
        is_zero_text(s) <==> text_num(s) == 0,
    decreases s.len(),
{
    if s.len() > 0 {
        let init = s.drop_last();
        assert(digits_and_points(init)) by {
            assert forall|i: int| 0 <= i < init.len() implies is_digit_char(#[trigger] init[i]) || init[i] == '.' by {
                assert(init[i] == s[i]);
            }
        }
        lemma_zero_text_value(init);
        let c = s.last();
        assert(is_digit_char(c) || c == '.');
        assert(is_zero_text(s) <==> (is_zero_text(init) && (c == '0' || c == '.'))) by {
            if is_zero_text(s) {
                assert(s[s.len() - 1] == '0' || s[s.len() - 1] == '.');
                assert forall|i: int| 0 <= i < init.len() implies #[trigger] init[i] == '0' || init[i] == '.' by {
                    assert(init[i] == s[i]);
                }
            }
            if is_zero_text(init) && (c == '0' || c == '.') {
                assert forall|i: int| 0 <= i < s.len() implies #[trigger] s[i] == '0' || s[i] == '.' by {
                    if i < init.len() {
                        assert(init[i] == s[i]);
                    }
                }
            }
        }
        if is_digit_char(c) {
            assert(digit_value(c) == 0 <==> c == '0');
        }
    }
}

/// An integer magnitude's digits, as the integer encoding writes them.
proof fn lemma_int_digits(m: nat)
    requires
        0 < m <= two_pow_63(),
    ensures
        is_digits(digits_of(m, num_digits(m))),
        digits_of(m, num_digits(m)).len() == num_digits(m),
        digits_of(m, num_digits(m))[0] >= 1,
        dval(digits_of(m, num_digits(m))) == m,
        1 <= num_digits(m) <= 19,
{
    let d = num_digits(m);
    lemma_digits_count_bound(m);
    lemma_digits_of_len(m, d);
    lemma_digits_of_bound(m, d);
    lemma_below_pow10_num_digits(m);
    let ds = digits_of(m, d);
    lemma_digits_of_dval(ds);
    // Both digit forms of fewer than 10^d numbers are the same digits.
    lemma_dval_digits_of(m, d);
    lemma_num_digits_lower(m);
    lemma_digits_of_index(m, d, 0);
    let p = pow10((d - 1) as nat);
    lemma_pow10_pos((d - 1) as nat);
    assert(pow10(d) == 10 * p);
    assert(1 <= m / p < 10) by (nonlinear_arith)
        requires
            p <= m,
            m < 10 * p,
            p > 0,
    ;
    assert((m / p) % 10 == m / p);
}

proof fn lemma_dval_digits_of(m: nat, d: nat)
    requires
        m < pow10(d),
    ensures
        dval(digits_of(m, d)) == m,
    decreases d,
{
    lemma_digits_of_len(m, d);
    if d == 0 {
        assert(pow10(0) == 1);
    } else {
        let p = pow10((d - 1) as nat);
        assert(pow10(d) == 10 * p);
        assert(m / 10 < p) by (nonlinear_arith)
            requires
                m < 10 * p,
        ;
        lemma_dval_digits_of(m / 10, (d - 1) as nat);
        let ds = digits_of(m, d);
        assert(ds.drop_last() =~= digits_of(m / 10, (d - 1) as nat));
        assert(ds.last() == (m % 10) as u8);
    }
}

proof fn lemma_num_digits_lower(m: nat)
    requires
        m >= 1,
    ensures
        m >= pow10((num_digits(m) - 1) as nat),
    decreases m,
{
    if m >= 10 {
        lemma_num_digits_lower(m / 10);
        let p = pow10((num_digits(m / 10) - 1) as nat);
        assert(pow10((num_digits(m) - 1) as nat) == 10 * p);
        assert(m >= 10 * p) by (nonlinear_arith)
            requires
                m / 10 >= p,
        ;
    } else {
        assert(pow10(0) == 1);
    }
}

/// The normal form of a non-zero number: its decimal exponent and its
/// significant digits.
pub open spec fn number_exponent(v: ValueModel) -> int {
    match v {
        ValueModel::Int(n) => num_digits(abs_int(n as int)) as int,
        ValueModel::Float(t) => {
            let a = magnitude_text(t);
            if all_digit_chars(a) && decimal_value(a) <= two_pow_63() {
                num_digits(decimal_value(a)) as int
            } else {
                final_pos(float_scan(a))
            }
        },
        ValueModel::Decimal(d) => final_pos(float_scan(magnitude_text(d))),
        _ => 0,
    }
}

pub open spec fn number_sig_digits(v: ValueModel) -> Seq<u8> {
    match v {
        ValueModel::Int(n) => digits_of(abs_int(n as int), num_digits(abs_int(n as int))),
        ValueModel::Float(t) => {
            let a = magnitude_text(t);
            if all_digit_chars(a) && decimal_value(a) <= two_pow_63() {
                digits_of(decimal_value(a), num_digits(decimal_value(a)))
            } else {
                float_scan(a).digits
            }
        },
        ValueModel::Decimal(d) => float_scan(magnitude_text(d)).digits,
        _ => seq![],
    }
}

proof fn lemma_magnitude_plain(t: Seq<char>)
    requires
        float_text_ok(t),
        t != nan_text() && t != inf_text() && t != neg_inf_text(),
    ensures
        digits_and_points(magnitude_text(t)),
        magnitude_text(t).len() <= 1100,
{
    let a = magnitude_text(t);
    if is_plain_decimal(t) {
        if text_is_negative(t) {
            assert(is_digit_char(t[0]));
        }
        assert(a == t);
    } else {
        assert(t.len() > 1 && t[0] == '-' && is_plain_decimal(t.drop_first()));
    }
}

proof fn lemma_decimal_magnitude_plain(d: Seq<char>)
    requires
        decimal_text_ok(d),
        d != decimal_nan_text() && d != decimal_inf_text() && d != decimal_neg_inf_text(),
    ensures
        digits_and_points(magnitude_text(d)),
{
    let a = magnitude_text(d);
    if is_plain_decimal(d) {
        if text_is_negative(d) {
            assert(is_digit_char(d[0]));
        }
        assert(a == d);
    } else {
        assert(d.len() > 1 && d[0] == '-' && is_plain_decimal(d.drop_first()));
    }
}

proof fn lemma_trim(ds: Seq<u8>)
    ensures
        trim_trailing_zeros(ds).len() <= ds.len(),
        trim_trailing_zeros(ds) == ds.take(trim_trailing_zeros(ds).len() as int),
        forall|i: int| trim_trailing_zeros(ds).len() <= i < ds.len() ==> #[trigger] ds[i] == 0,
        trim_trailing_zeros(ds).len() > 0 ==> trim_trailing_zeros(ds).last() != 0,
    decreases ds.len(),
{
    if ds.len() > 0 && ds.last() == 0 {
        let init = ds.drop_last();
        lemma_trim(init);
        let t = trim_trailing_zeros(init);
        assert(t == ds.take(t.len() as int)) by {
            assert(t =~= ds.take(t.len() as int)) by {
                assert forall|i: int| 0 <= i < t.len() implies t[i] == ds.take(t.len() as int)[i] by {
                    assert(init.take(t.len() as int)[i] == init[i]);
                }
            }
        }
        assert forall|i: int| t.len() <= i < ds.len() implies #[trigger] ds[i] == 0 by {
            if i < init.len() {
                assert(init[i] == ds[i]);
            }
        }
    } else {
        assert(ds.take(ds.len() as int) =~= ds);
    }
}

/// The parser's bytes for a non-zero decimal fit into the fixed width as
/// the decimal's normal form.
proof fn lemma_decimal_fit(negative: bool, e: int, ds: Seq<u8>)
    requires
        is_digits(ds),
        ds.len() >= 1 && ds[0] >= 1,
        sig_fits(ds),
        decimal_exponent_ok(e),
    ensures
        spec_fit_decimal_bytes(decimal_bytes_form(negative, e, trim_trailing_zeros(ds))) == norm_enc(negative, e, ds),
{
    lemma_trim(ds);
    let t = trim_trailing_zeros(ds);
    if t.len() == 0 {
        assert(ds[0] == 0);
    }
    assert(t[0] == ds[0]);
    assert(t.len() <= 26) by {
        if t.len() > 26 {
            assert(t[t.len() - 1] == ds[t.len() - 1]);
            assert(ds[t.len() - 1] == 0);
        }
    }
    let b = decimal_bytes_form(negative, e, t);
    let m = bcd_pack(t);
    assert(1 <= m.len() <= 13);
    assert(b.len() == 3 + m.len());
    assert(b != decimal_nan_bytes() && b != decimal_pos_infinity_bytes() && b != decimal_neg_infinity_bytes()
        && b != decimal_zero_bytes()) by {
        assert(b.len() != 3 && b.len() != 1);
    }
    assert(take_at_most(m, 13) == m);
    let u = (0x4000 + e) as u16;
    assert((e + 16384) as u16 == u);
    if negative {
        assert(b[0] == NUMERIC_SIGN_NEGATIVE);
    } else {
        assert(b[0] == NUMERIC_SIGN_POSITIVE);
    }
    assert(spec_fit_decimal_bytes(b) =~= norm_enc(negative, e, t));
    lemma_norm_mantissa(negative, e, t);
    lemma_norm_mantissa(negative, e, ds);
    assert(pad26(t) =~= pad26(ds)) by {
        assert forall|i: int| 0 <= i < 26 implies pad26(t)[i] == pad26(ds)[i] by {
            if i < t.len() {
                assert(t[i] == ds.take(t.len() as int)[i]);
            } else if i < ds.len() {
                assert(ds[i] == 0);
            }
        }
    }
}

/// Every finite number encodes as zero or as its normal form.
proof fn lemma_number_normal(v: ValueModel)
    requires
        finite_number(v),
        number_fits(v),
    ensures
        number_digits(v) == 0 ==> spec_encode_ordered(v) == seq![TAG_NUMBER] + numeric_zero(),
        number_digits(v) > 0 ==> {
            let e = number_exponent(v);
            let d = number_sig_digits(v);
            &&& is_digits(d)
            &&& d.len() >= 1 && d[0] >= 1
            &&& sig_fits(d)
            &&& d.len() == e + number_frac(v)
            &&& dval(d) == number_digits(v)
            &&& -16383 <= e <= 16381
            &&& spec_encode_ordered(v) == seq![TAG_NUMBER] + norm_enc(number_negative(v), e, d)
        },
{
    match v {
        ValueModel::Int(n) => {
            let m = abs_int(n as int);
            if m > 0 {
                assert(m <= two_pow_63());
                lemma_int_digits(m);
                let d = digits_of(m, num_digits(m));
                assert(take_at_most(bcd_pack(d), 13) == bcd_pack(d));
                assert(spec_encode_int(n as int) == spec_encode_magnitude(n < 0, m));
            }
        },
        ValueModel::Float(t) => {
            let a = magnitude_text(t);
            lemma_magnitude_plain(t);
            lemma_zero_text_value(a);
            lemma_scan_value(a);
            lemma_float_scan_bounds(a);
            if !is_zero_text(a) {
                if all_digit_chars(a) && decimal_value(a) <= two_pow_63() {
                    lemma_digit_text_value(a);
                    let m = decimal_value(a);
                    assert(m != two_pow_63());
                    lemma_int_digits(m);
                    let d = digits_of(m, num_digits(m));
                    assert(take_at_most(bcd_pack(d), 13) == bcd_pack(d));
                    let sm: int = if text_is_negative(t) { -(m as int) } else { m as int };
                    assert(abs_int(sm) == m);
                    assert(spec_encode_int(sm) == spec_encode_magnitude(text_is_negative(t), m));
                } else {
                    let st = float_scan(a);
                    assert(st.digits.len() > 0);
                }
            }
        },
        ValueModel::Decimal(d) => {
            let a = magnitude_text(d);
            lemma_decimal_magnitude_plain(d);
            lemma_scan_value(a);
            lemma_float_scan_bounds(a);
            let st = float_scan(a);
            assert(plain_decimal_bytes(d) == if st.digits.len() == 0 {
                Some(decimal_zero_bytes())
            } else {
                Some(decimal_bytes_form(text_is_negative(d), final_pos(st), trim_trailing_zeros(st.digits)))
            });
            if st.digits.len() > 0 {
                lemma_dval_lower(st.digits);
                lemma_pow10_pos((st.digits.len() - 1) as nat);
                lemma_decimal_fit(text_is_negative(d), final_pos(st), st.digits);
            }
        },
        _ => {},
    }
}

/// Law: numbers sort by value, integers, doubles and decimals alike: when
/// `v` is less than `w` as a number, the encoding of `v` sorts before that
/// of `w`. (A double's or decimal's value is its display text read as a
/// decimal; zero and negative zero are the same value. Numbers are taken
/// as `number_fits` says: at most 26 significant digits, as displayed
/// doubles have; not the double 2^63, which the encoding saturates; a
/// decimal exponent the parser accepts.)
pub proof fn law_number_value_order(v: ValueModel, w: ValueModel)
    requires
        finite_number(v),
        finite_number(w),
        number_fits(v),
        number_fits(w),
        number_lt(v, w),
    ensures
        lex_lt(spec_encode_ordered(v), spec_encode_ordered(w)),
{
    lemma_number_normal(v);
    lemma_number_normal(w);
    let ev = spec_encode_ordered(v);
    let ew = spec_encode_ordered(w);
    let nv = number_digits(v);
    let nw = number_digits(w);
    let fv = number_frac(v);
    let fw = number_frac(w);
    lemma_pow10_pos(fv);
    lemma_pow10_pos(fw);
    let a = nv * pow10(fw);
    let b = nw * pow10(fv);
    assert(nv == 0 ==> a == 0) by (nonlinear_arith)
        requires
            a == nv * pow10(fw),
    ;
    assert(nw == 0 ==> b == 0) by (nonlinear_arith)
        requires
            b == nw * pow10(fv),
    ;
    assert(nv > 0 ==> a > 0) by (nonlinear_arith)
        requires
            a == nv * pow10(fw),
            pow10(fw) > 0,
    ;
    assert(nw > 0 ==> b > 0) by (nonlinear_arith)
        requires
            b == nw * pow10(fv),
            pow10(fv) > 0,
    ;
    let ev_neg = number_negative(v);
    let ew_neg = number_negative(w);
    if nv == 0 {
        // zero before a positive number
        assert(nw > 0 && !ew_neg);
        assert(ev[1] == 0x80u8);
        assert(ew[1] == NUMERIC_SIGN_POSITIVE);
        assert(first_lower_at(ev, ew, 1));
        lemma_lex_lt_at(ev, ew, 1);
    } else if nw == 0 {
        assert(ev_neg);
        assert(ev[1] == NUMERIC_SIGN_NEGATIVE);
        assert(ew[1] == 0x80u8);
        assert(first_lower_at(ev, ew, 1));
        lemma_lex_lt_at(ev, ew, 1);
    } else if ev_neg && !ew_neg {
        assert(ev[1] == NUMERIC_SIGN_NEGATIVE);
        assert(ew[1] == NUMERIC_SIGN_POSITIVE);
        assert(first_lower_at(ev, ew, 1));
        lemma_lex_lt_at(ev, ew, 1);
    } else if !ev_neg {
        assert(!ew_neg);
        lemma_norm_order(number_exponent(v), number_sig_digits(v), fv, number_exponent(w), number_sig_digits(w), fw);
        lemma_lex_lt_prepend(
            seq![TAG_NUMBER],
            norm_enc(false, number_exponent(v), number_sig_digits(v)),
            norm_enc(false, number_exponent(w), number_sig_digits(w)),
        );
    } else {
        assert(b < a);
        lemma_norm_order(number_exponent(w), number_sig_digits(w), fw, number_exponent(v), number_sig_digits(v), fv);
        lemma_lex_lt_prepend(
            seq![TAG_NUMBER],
            norm_enc(true, number_exponent(v), number_sig_digits(v)),
            norm_enc(true, number_exponent(w), number_sig_digits(w)),
        );
    }
}

/// Law: negative infinity sorts before every finite number, positive
/// infinity after every one, and NaN after positive infinity.
pub proof fn law_number_infinities(v: ValueModel)
    requires
        finite_number(v),
        number_fits(v),
    ensures
        lex_lt(spec_encode_ordered(ValueModel::Float(neg_inf_text())), spec_encode_ordered(v)),
        lex_lt(spec_encode_ordered(v), spec_encode_ordered(ValueModel::Float(inf_text()))),
        lex_lt(spec_encode_ordered(ValueModel::Float(inf_text())), spec_encode_ordered(ValueModel::Float(nan_text()))),
{
    lemma_number_normal(v);
    let ev = spec_encode_ordered(v);
    let lo = spec_encode_ordered(ValueModel::Float(neg_inf_text()));
    let hi = spec_encode_ordered(ValueModel::Float(inf_text()));
    let nan = spec_encode_ordered(ValueModel::Float(nan_text()));
    assert(neg_inf_text() != nan_text());
    assert(inf_text() != nan_text());
    assert(neg_inf_text() != inf_text());
    assert(lo == seq![TAG_NUMBER] + numeric_neg_infinity());
    assert(hi == seq![TAG_NUMBER] + numeric_pos_infinity());
    assert(nan == seq![TAG_NUMBER] + numeric_nan());
    assert(lo.len() == 17 && hi.len() == 17 && nan.len() == 17);
    assert(first_lower_at(hi, nan, 16));
    lemma_lex_lt_at(hi, nan, 16);
    if number_digits(v) == 0 {
        assert(first_lower_at(lo, ev, 1));
        assert(first_lower_at(ev, hi, 1));
    } else {
        let e = number_exponent(v);
        let u = (0x4000 + e) as u16;
        assert(u / 256 <= 0x7F) by (nonlinear_arith)
            requires
                u == 0x4000 + e,
                -16383 <= e <= 16381,
        ;
        if number_negative(v) {
            assert(ev[1] == NUMERIC_SIGN_NEGATIVE);
            assert(ev[2] == (255 - (u / 256) as u8) as u8);
            assert(first_lower_at(lo, ev, 2));
            assert(first_lower_at(ev, hi, 1));
        } else {
            assert(ev[1] == NUMERIC_SIGN_POSITIVE);
            assert(ev[2] == (u / 256) as u8);
            assert(first_lower_at(lo, ev, 1));
            assert(first_lower_at(ev, hi, 2));
        }
    }
    lemma_lex_lt_at(lo, ev, if number_digits(v) > 0 && number_negative(v) { 2 } else { 1 });
    lemma_lex_lt_at(ev, hi, if number_digits(v) > 0 && !number_negative(v) { 2 } else { 1 });
}

/// `v` and `w` are the same number: the magnitudes `n / 10^f` equal over
/// a common denominator, with their signs (zero and negative zero agree).
pub open spec fn number_same(v: ValueModel, w: ValueModel) -> bool {
    let a = number_digits(v) * pow10(number_frac(w));
    let b = number_digits(w) * pow10(number_frac(v));
    let sa: int = if number_negative(v) {
        -a
    } else {
        a as int
    };
    let sb: int = if number_negative(w) {
        -b
    } else {
        b as int
    };
    sa == sb
}

/// Law: equal numbers encode alike, integers, doubles and decimals: `100`,
/// `100.0` and the decimal `100.00` give the same bytes; with the order law,
/// two numbers encode alike exactly when they are the same number.
pub proof fn law_number_value_equal(v: ValueModel, w: ValueModel)
    requires
        finite_number(v),
        finite_number(w),
        number_fits(v),
        number_fits(w),
    ensures
        number_same(v, w) <==> spec_encode_ordered(v) == spec_encode_ordered(w),
{
    lemma_number_normal(v);
    lemma_number_normal(w);
    let nv = number_digits(v);
    let nw = number_digits(w);
    let fv = number_frac(v);
    let fw = number_frac(w);
    lemma_pow10_pos(fv);
    lemma_pow10_pos(fw);
    let a = nv * pow10(fw);
    let b = nw * pow10(fv);
    assert(nv == 0 <==> a == 0) by (nonlinear_arith)
        requires
            a == nv * pow10(fw),
            pow10(fw) > 0,
    ;
    assert(nw == 0 <==> b == 0) by (nonlinear_arith)
        requires
            b == nw * pow10(fv),
            pow10(fv) > 0,
    ;
    if number_same(v, w) {
        if nv > 0 {
            assert(number_negative(v) == number_negative(w));
            assert(a == b);
            lemma_norm_equal(number_negative(v), number_exponent(v), number_sig_digits(v), fv, number_exponent(w),
                number_sig_digits(w), fw);
        }
    } else {
        if number_lt(v, w) {
            law_number_value_order(v, w);
            lemma_lex_lt_irreflexive(spec_encode_ordered(v));
        } else {
            assert(number_lt(w, v));
            law_number_value_order(w, v);
            lemma_lex_lt_irreflexive(spec_encode_ordered(v));
        }
    }
}

} // verus!
