//! Lock striping: keys are spread over a power-of-two number of stripes by
//! their hash, and several stripes are always taken in increasing order.

use vstd::prelude::*;
use vstd::arithmetic::power2::{pow2, lemma_pow2_unfold, lemma2_to64, lemma_pow2_strictly_increases};
use crate::external::{xxh3_key_hash, xxh3_str_hash};

verus! {

/// Stripes used when no count is given.
pub const DEFAULT_STRIPE_COUNT: usize = 64;

/// Whether `n` is a power of two.
pub open spec fn is_pow2(n: nat) -> bool {
    exists|e: nat| #[trigger] pow2(e) == n
}

/// Why a stripe count was refused.
#[derive(Clone, Copy, PartialEq, Eq, Structural, Debug)]
pub enum StripeCountError {
    /// The count is zero.
    Zero,
    /// The count is not a power of two.
    NotPowerOfTwo,
}

/// How keys map to stripes: a power-of-two number of stripes, a key going
/// to its hash modulo that number.
#[derive(Debug)]
pub struct StripeLayout {
    count: usize,
}

impl View for StripeLayout {
    type V = nat;

    closed spec fn view(&self) -> nat {
        self.count as nat
    }
}

/// Whether the sequence is strictly increasing.
pub open spec fn strictly_increasing(s: Seq<usize>) -> bool {
    forall|i: int, j: int| 0 <= i < j < s.len() ==> #[trigger] s[i] < #[trigger] s[j]
}

/// Whether `x` is the stripe of one of the hashes.
pub open spec fn is_stripe_of_some(hashes: Seq<u64>, count: nat, x: nat) -> bool {
    exists|j: int| 0 <= j < hashes.len() && x == (#[trigger] hashes[j]) as nat % count
}

/// Whether `n` is a power of two; the smallest power of two not below `n`
/// is searched for.
fn check_pow2(n: usize) -> (r: bool)
    requires
        n > 0,
    ensures
        r == is_pow2(n as nat),
{
    let mut p: u128 = 1;
    let ghost mut e: nat = 0;
    proof {
        lemma2_to64();
    }
    while p < n as u128
        invariant
            n > 0,
            1 <= p <= 2 * n,
            p == pow2(e),
            e == 0 || pow2((e - 1) as nat) < n,
        decreases 2 * n - p,
    {
        proof {
            lemma_pow2_unfold(e + 1);
        }
        p = p * 2;
        proof {
            e = e + 1;
        }
    }
    if p == n as u128 {
        true
    } else {
        proof {
            if is_pow2(n as nat) {
                let k = choose|k: nat| #[trigger] pow2(k) == n;
                if k >= e {
                    if k > e {
                        lemma_pow2_strictly_increases(e, k);
                    }
                } else if e > 0 {
                    if k < e - 1 {
                        lemma_pow2_strictly_increases(k, (e - 1) as nat);
                    }
                }
            }
        }
        false
    }
}

impl StripeLayout {
    #[verifier::type_invariant]
    closed spec fn wf(self) -> bool {
        is_pow2(self.count as nat)
    }

    /// The default layout of 64 stripes.
    pub fn new() -> (r: Self)
        ensures
            r@ == DEFAULT_STRIPE_COUNT,
    {
        proof {
            lemma2_to64();
            assert(pow2(6) == 64);
        }
        StripeLayout { count: DEFAULT_STRIPE_COUNT }
    }

    /// A layout of `count` stripes; refused unless `count` is a positive
    /// power of two.
    pub fn with_count(count: usize) -> (r: Result<Self, StripeCountError>)
        ensures
            count == 0 ==> r == Err::<Self, StripeCountError>(StripeCountError::Zero),
            count > 0 && !is_pow2(count as nat) ==> r == Err::<Self, StripeCountError>(StripeCountError::NotPowerOfTwo),
            count > 0 && is_pow2(count as nat) ==> (r matches Ok(l) && l@ == count),
    {
        if count == 0 {
            return Err(StripeCountError::Zero);
        }
        if !check_pow2(count) {
            return Err(StripeCountError::NotPowerOfTwo);
        }
        Ok(StripeLayout { count })
    }

    /// Number of stripes.
    pub fn stripe_count(&self) -> (r: usize)
        ensures
            r == self@,
            is_pow2(r as nat),
    {
        proof {
            use_type_invariant(self);
        }
        self.count
    }

    /// The stripe of a key with the given hash.
    pub fn stripe_index(&self, hash: u64) -> (r: usize)
        ensures
            r == hash as nat % self@,
            r < self@,
    {
        proof {
            use_type_invariant(self);
            let k = choose|k: nat| #[trigger] pow2(k) == self.count;
            if self.count == 0 {
                assert(pow2(k) > 0) by {
                    vstd::arithmetic::power2::lemma_pow2_pos(k);
                }
            }
        }
        (hash % (self.count as u64)) as usize
    }

    /// The stripe of a text key, hashed as `Xxh3DefaultBuilder` hashes it.
    pub fn key_stripe(&self, key: &str) -> (r: usize)
        ensures
            r == xxh3_key_hash(key@) as nat % self@,
    {
        let h = xxh3_str_hash(key);
        self.stripe_index(h)
    }

    /// The stripes of keys with the given hashes, each once, in increasing
    /// order: the order in which they are to be locked.
    pub fn lock_order(&self, hashes: &[u64]) -> (r: Vec<usize>)
        ensures
            strictly_increasing(r@),
            forall|x: usize| #[trigger] r@.contains(x) <==> is_stripe_of_some(hashes@, self@, x as nat),
    {
        let mut out: Vec<usize> = Vec::new();
        let mut i: usize = 0;
        while i < hashes.len()
            invariant
                i <= hashes@.len(),
                strictly_increasing(out@),
                forall|x: usize| #[trigger] out@.contains(x) <==> is_stripe_of_some(hashes@.take(i as int), self@, x as nat),
            decreases hashes@.len() - i,
        {
            let s = self.stripe_index(hashes[i]);
            let ghost before = out@;
            insert_sorted(&mut out, s);
            proof {
                let t = hashes@.take(i + 1);
                assert forall|x: usize| #[trigger] out@.contains(x) <==> is_stripe_of_some(t, self@, x as nat) by {
                    if is_stripe_of_some(t, self@, x as nat) {
                        let j = choose|j: int| 0 <= j < t.len() && x == (#[trigger] t[j]) as nat % self@;
                        if j < i {
                            assert(hashes@.take(i as int)[j] == t[j]);
                            assert(before.contains(x));
                        }
                    }
                    if before.contains(x) {
                        let j = choose|j: int| 0 <= j < i && x == (#[trigger] hashes@.take(i as int)[j]) as nat % self@;
                        assert(t[j] == hashes@.take(i as int)[j]);
                    }
                    if x == s {
                        assert(t[i as int] == hashes@[i as int]);
                    }
                }
            }
            i = i + 1;
        }
        assert(hashes@.take(hashes@.len() as int) =~= hashes@);
        out
    }
}

/// Inserts `x` into a strictly increasing vector, unless it is already there.
fn insert_sorted(v: &mut Vec<usize>, x: usize)
    requires
        strictly_increasing(old(v)@),
    ensures
        strictly_increasing(final(v)@),
        forall|y: usize| #[trigger] final(v)@.contains(y) <==> (old(v)@.contains(y) || y == x),
{
    let mut i: usize = 0;
    while i < v.len() && v[i] < x
        invariant
            i <= v@.len(),
            forall|j: int| 0 <= j < i ==> #[trigger] v@[j] < x,
        decreases v@.len() - i,
    {
        i = i + 1;
    }
    if i < v.len() && v[i] == x {
        return;
    }
    let ghost before = v@;
    v.insert(i, x);
    proof {
        assert(v@ =~= before.subrange(0, i as int).push(x) + before.subrange(i as int, before.len() as int));
        assert forall|a: int, b: int| 0 <= a < b < v@.len() implies #[trigger] v@[a] < #[trigger] v@[b] by {
            if b < i {
                assert(v@[a] == before[a] && v@[b] == before[b]);
            } else if b == i {
                assert(v@[a] == before[a]);
            } else if a < i {
                assert(v@[a] == before[a] && v@[b] == before[b - 1]);
                assert(before[a] < x);
                if i < before.len() {
                    assert(before[i as int] >= x);
                    if b - 1 > i {
                        assert(before[i as int] < before[b - 1]);
                    }
                }
            } else if a == i {
                assert(v@[b] == before[b - 1]);
                assert(before[i as int] >= x && before[i as int] != x);
                if b - 1 > i {
                    assert(before[i as int] < before[b - 1]);
                }
            } else {
                assert(v@[a] == before[a - 1] && v@[b] == before[b - 1]);
            }
        }
        assert forall|y: usize| #[trigger] v@.contains(y) <==> (before.contains(y) || y == x) by {
            if v@.contains(y) {
                let k = choose|k: int| 0 <= k < v@.len() && v@[k] == y;
                if k < i {
                    assert(before[k] == y);
                } else if k > i {
                    assert(before[k - 1] == y);
                }
            }
            if before.contains(y) {
                let k = choose|k: int| 0 <= k < before.len() && before[k] == y;
                if k < i {
                    assert(v@[k] == y);
                } else {
                    assert(v@[k + 1] == y);
                }
            }
            assert(v@[i as int] == x);
        }
    }
}

} // verus!
