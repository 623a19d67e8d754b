//! Storage statistics and their display.

use vstd::prelude::*;
use vstd::string::*;
use vstd::arithmetic::power2::{pow2, lemma_pow2_unfold, lemma2_to64, lemma_pow2_strictly_increases};
use vstd::arithmetic::div_mod::{lemma_div_denominator, lemma_div_is_ordered_by_denominator, lemma_fundamental_div_mod};

verus! {

/// The digit character of `d` (below ten).
pub open spec fn digit_char(d: nat) -> char {
    if d == 0 {
        '0'
    } else if d == 1 {
        '1'
    } else if d == 2 {
        '2'
    } else if d == 3 {
        '3'
    } else if d == 4 {
        '4'
    } else if d == 5 {
        '5'
    } else if d == 6 {
        '6'
    } else if d == 7 {
        '7'
    } else if d == 8 {
        '8'
    } else {
        '9'
    }
}

/// The decimal digits of `n`, without leading zeros.
pub open spec fn decimal_text(n: nat) -> Seq<char>
    decreases n,
{
    if n < 10 {
        seq![digit_char(n)]
    } else {
        decimal_text(n / 10).push(digit_char(n % 10))
    }
}

fn digit_str(d: u128) -> (r: &'static str)
    requires
        d < 10,
    ensures
        r@ == seq![digit_char(d as nat)],
{
    proof {
        reveal_strlit("0");
        reveal_strlit("1");
        reveal_strlit("2");
        reveal_strlit("3");
        reveal_strlit("4");
        reveal_strlit("5");
        reveal_strlit("6");
        reveal_strlit("7");
        reveal_strlit("8");
        reveal_strlit("9");
    }
    if d == 0 {
        "0"
    } else if d == 1 {
        "1"
    } else if d == 2 {
        "2"
    } else if d == 3 {
        "3"
    } else if d == 4 {
        "4"
    } else if d == 5 {
        "5"
    } else if d == 6 {
        "6"
    } else if d == 7 {
        "7"
    } else if d == 8 {
        "8"
    } else {
        "9"
    }
}

/// Appends the decimal digits of `n` to `s`.
pub fn push_decimal(s: &mut String, n: u128)
    ensures
        final(s)@ == old(s)@ + decimal_text(n as nat),
    decreases n,
{
    if n >= 10 {
        push_decimal(s, n / 10);
    }
    s.append(digit_str(n % 10));
    assert(old(s)@ + decimal_text(n as nat) =~= if n >= 10 {
        old(s)@ + decimal_text((n / 10) as nat) + seq![digit_char((n % 10) as nat)]
    } else {
        old(s)@ + seq![digit_char((n % 10) as nat)]
    });
}

/// Sizes and counts of a database.
#[derive(Clone, Copy, Debug)]
pub struct StorageStats {
    /// Number of collections.
    pub collections: usize,
    /// Number of edge labels.
    pub edge_labels: usize,
    /// Number of B-tree indexes.
    pub btree_indexes: usize,
    /// Number of vector indexes.
    pub vector_indexes: usize,
    /// Number of full-text indexes.
    pub fts_indexes: usize,
    /// Total disk size in bytes.
    pub disk_size: u64,
}

impl Default for StorageStats {
    fn default() -> (r: Self)
        ensures
            r.collections == 0,
            r.edge_labels == 0,
            r.btree_indexes == 0,
            r.vector_indexes == 0,
            r.fts_indexes == 0,
            r.disk_size == 0,
    {
        StorageStats {
            collections: 0,
            edge_labels: 0,
            btree_indexes: 0,
            vector_indexes: 0,
            fts_indexes: 0,
            disk_size: 0,
        }
    }
}

pub open spec fn total_of(s: StorageStats) -> nat {
    (s.btree_indexes + s.vector_indexes + s.fts_indexes) as nat
}

/// `n` followed by the kind letter, or nothing when `n` is zero.
pub open spec fn count_part(n: nat, letter: char) -> Seq<Seq<char>> {
    if n > 0 {
        seq![decimal_text(n).push(letter)]
    } else {
        seq![]
    }
}

/// The parts joined by `/`.
pub open spec fn join_slash(parts: Seq<Seq<char>>) -> Seq<char>
    decreases parts.len(),
{
    if parts.len() == 0 {
        seq![]
    } else if parts.len() == 1 {
        parts[0]
    } else {
        join_slash(parts.drop_last()) + seq!['/'] + parts.last()
    }
}

/// "TOTAL idx (Bb/Vv/Ff)", leaving out the kinds with no index; empty
/// when there is no index at all.
pub open spec fn summary_text(s: StorageStats) -> Seq<char> {
    if total_of(s) == 0 {
        seq![]
    } else {
        decimal_text(total_of(s)) + seq![' ', 'i', 'd', 'x', ' ', '(']
            + join_slash(
            count_part(s.btree_indexes as nat, 'b') + count_part(s.vector_indexes as nat, 'v')
                + count_part(s.fts_indexes as nat, 'f'),
        ) + seq![')']
    }
}

impl StorageStats {
    /// Number of indexes of all kinds.
    pub fn total_indexes(&self) -> (r: usize)
        requires
            total_of(*self) <= usize::MAX,
        ensures
            r == total_of(*self),
    {
        self.btree_indexes + self.vector_indexes + self.fts_indexes
    }

    /// Compact index summary, such as "18 idx (15b/1v/2f)".
    pub fn indexes_summary(&self) -> (r: String)
        requires
            total_of(*self) <= usize::MAX,
        ensures
            r@ == summary_text(*self),
    {
        let total = self.total_indexes();
        if total == 0 {
            return String::new();
        }
        let mut s = String::new();
        push_decimal(&mut s, total as u128);
        proof {
            reveal_strlit(" idx (");
            reveal_strlit(")");
        }
        s.append(" idx (");
        let ghost head = s@;
        let ghost pb = count_part(self.btree_indexes as nat, 'b');
        let ghost pv = count_part(self.vector_indexes as nat, 'v');
        let ghost pf = count_part(self.fts_indexes as nat, 'f');
        append_part(&mut s, self.btree_indexes, 'b', false);
        assert(s@ =~= head + join_slash(pb));
        append_part(&mut s, self.vector_indexes, 'v', self.btree_indexes > 0);
        proof {
            lemma_join_push(pb, pv);
        }
        assert(s@ =~= head + join_slash(pb + pv));
        append_part(&mut s, self.fts_indexes, 'f', self.btree_indexes > 0 || self.vector_indexes > 0);
        proof {
            lemma_join_push(pb + pv, pf);
        }
        assert(s@ =~= head + join_slash(pb + pv + pf));
        s.append(")");
        s
    }
}

/// Appends `/` (when `sep`), the count and its kind letter, when the count
/// is not zero.
fn append_part(s: &mut String, n: usize, letter: char, sep: bool)
    requires
        letter == 'b' || letter == 'v' || letter == 'f',
    ensures
        n == 0 ==> final(s)@ == old(s)@,
        n > 0 ==> final(s)@ == old(s)@ + (if sep { seq!['/'] } else { seq![] }) + decimal_text(n as nat).push(letter),
{
    if n > 0 {
        proof {
            reveal_strlit("/");
            reveal_strlit("b");
            reveal_strlit("v");
            reveal_strlit("f");
        }
        let ghost start = s@;
        if sep {
            s.append("/");
        }
        let ghost mid = s@;
        push_decimal(s, n as u128);
        if letter == 'b' {
            s.append("b");
        } else if letter == 'v' {
            s.append("v");
        } else {
            s.append("f");
        }
        assert(s@ =~= start + (if sep { seq!['/'] } else { seq![] }) + decimal_text(n as nat).push(letter));
    }
}

/// Joining one more optional part.
proof fn lemma_join_push(parts: Seq<Seq<char>>, more: Seq<Seq<char>>)
    requires
        more.len() <= 1,
    ensures
        more.len() == 0 ==> join_slash(parts + more) == join_slash(parts),
        more.len() == 1 && parts.len() == 0 ==> join_slash(parts + more) == more[0],
        more.len() == 1 && parts.len() > 0 ==> join_slash(parts + more) == join_slash(parts) + seq!['/'] + more[0],
{
    if more.len() == 0 {
        assert(parts + more =~= parts);
    } else {
        assert((parts + more).drop_last() =~= parts);
        if parts.len() == 0 {
            assert(parts + more =~= more);
        }
    }
}

/// `a / d` rounded to the nearest integer, ties to even.
pub open spec fn round_half_even_div(a: nat, d: nat) -> nat {
    let q = a / d;
    let r = a % d;
    if 2 * r > d {
        q + 1
    } else if 2 * r < d {
        q
    } else if q % 2 == 0 {
        q
    } else {
        q + 1
    }
}

/// How many low bits of `n` fall outside a 53-bit mantissa.
pub open spec fn excess_bits(n: nat) -> nat
    decreases n,
{
    if n < 0x20_0000_0000_0000 {
        0
    } else {
        1 + excess_bits(n / 2)
    }
}

/// The value of `n as f64`: `n` rounded to 53 significant bits, ties to
/// even.
pub open spec fn f64_nearest(n: nat) -> nat {
    if n < 0x20_0000_0000_0000 {
        n
    } else {
        round_half_even_div(n, pow2(excess_bits(n))) * pow2(excess_bits(n))
    }
}

/// `size / unit`, computed as a float, written with one decimal.
pub open spec fn one_decimal_text(size: nat, unit: nat) -> Seq<char> {
    let q = round_half_even_div(10 * f64_nearest(size), unit);
    decimal_text(q / 10) + seq!['.', digit_char(q % 10)]
}

/// The size in bytes, KB, MB or GB, such as "512 B" or "1.5 KB".
pub open spec fn human_size_text(size: nat) -> Seq<char> {
    if size < 1024 {
        decimal_text(size) + seq![' ', 'B']
    } else if size < 1024 * 1024 {
        one_decimal_text(size, 1024) + seq![' ', 'K', 'B']
    } else if size < 1024 * 1024 * 1024 {
        one_decimal_text(size, 1024 * 1024) + seq![' ', 'M', 'B']
    } else {
        one_decimal_text(size, 1024 * 1024 * 1024) + seq![' ', 'G', 'B']
    }
}

fn round_div_half_even(a: u128, d: u128) -> (r: u128)
    requires
        d > 0,
        a < u128::MAX,
    ensures
        r == round_half_even_div(a as nat, d as nat),
{
    let q = a / d;
    let rem = a % d;
    assert(q <= a) by {
        lemma_div_is_ordered_by_denominator(a as int, 1, d as int);
    }
    if rem > d - rem {
        q + 1
    } else if rem < d - rem {
        q
    } else if q % 2 == 0 {
        q
    } else {
        q + 1
    }
}

/// `n as f64`, as an exact integer.
fn nearest_f64_integer(n: u64) -> (r: u128)
    ensures
        r == f64_nearest(n as nat),
        r <= 0x1_0000_0000_0000_0000,
{
    if n < 0x20_0000_0000_0000 {
        return n as u128;
    }
    let x = n as u128;
    let mut p: u128 = 1;
    let ghost mut e: nat = 0;
    proof {
        lemma2_to64();
    }
    while x / p >= 0x20_0000_0000_0000
        invariant
            x == n,
            x >= 0x20_0000_0000_0000,
            e <= 11,
            1 <= p <= 2048,
            p == pow2(e),
            excess_bits(x as nat) == e + excess_bits((x / p) as nat),
        decreases 11 - e,
    {
        proof {
            lemma2_to64();
            if e == 11 {
                lemma_div_is_ordered_by_denominator(x as int, 2048, p as int);
                assert(x / 2048 < 0x20_0000_0000_0000);
            }
            if e < 10 {
                lemma_pow2_strictly_increases(e, 10);
            }
            lemma_div_denominator(x as int, p as int, 2);
            lemma_pow2_unfold(e + 1);
        }
        p = p * 2;
        proof {
            e = e + 1;
        }
    }
    proof {
        lemma2_to64();
        if e < 11 {
            lemma_pow2_strictly_increases(e, 11);
        }
    }
    let q = x / p;
    proof {
        lemma_fundamental_div_mod(x as int, p as int);
        assert(x % p < p);
    }
    let m = round_div_half_even(x, p);
    assert(m <= 0x20_0000_0000_0000);
    assert(m * p <= 0x1_0000_0000_0000_0000) by (nonlinear_arith)
        requires
            m <= 0x20_0000_0000_0000,
            p <= 2048,
    ;
    m * p
}

/// Appends `size / unit`, computed as a float, with one decimal.
fn push_one_decimal(s: &mut String, size: u64, unit: u128)
    requires
        unit == 1024 || unit == 1024 * 1024 || unit == 1024 * 1024 * 1024,
    ensures
        final(s)@ == old(s)@ + one_decimal_text(size as nat, unit as nat),
{
    let f = nearest_f64_integer(size);
    let q = round_div_half_even(10 * f, unit);
    push_decimal(s, q / 10);
    proof {
        reveal_strlit(".");
    }
    s.append(".");
    s.append(digit_str(q % 10));
    assert(s@ =~= old(s)@ + one_decimal_text(size as nat, unit as nat));
}

impl StorageStats {
    /// The disk size in bytes, KB, MB or GB, with one decimal above bytes.
    pub fn disk_size_human(&self) -> (r: String)
        ensures
            r@ == human_size_text(self.disk_size as nat),
    {
        let size = self.disk_size;
        let mut s = String::new();
        proof {
            reveal_strlit(" B");
            reveal_strlit(" KB");
            reveal_strlit(" MB");
            reveal_strlit(" GB");
        }
        if size < 1024 {
            push_decimal(&mut s, size as u128);
            s.append(" B");
        } else if size < 1024 * 1024 {
            push_one_decimal(&mut s, size, 1024);
            s.append(" KB");
        } else if size < 1024 * 1024 * 1024 {
            push_one_decimal(&mut s, size, 1024 * 1024);
            s.append(" MB");
        } else {
            push_one_decimal(&mut s, size, 1024 * 1024 * 1024);
            s.append(" GB");
        }
        assert(s@ =~= human_size_text(size as nat));
        s
    }
}

} // verus!
