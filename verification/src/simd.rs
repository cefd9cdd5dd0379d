//! Population counts over signature lanes.
//!
//! Only the portable lane-by-lane path lives here; every entry point is
//! specified by the same counting function, so any alternative path a caller
//! selects must agree with it bit for bit.

use vstd::prelude::*;
use vstd::arithmetic::power2::{lemma2_to64, lemma2_to64_rest, lemma_pow2_unfold, pow2};

verus! {

/// The code path used for population counts.
#[derive(Clone, Copy, Debug, PartialEq, Eq)]
pub enum SimdPath {
    Avx2,
    Scalar,
}

/// Number of one bits in the binary representation of `x`.
pub open spec fn popcount64(x: u64) -> nat
    decreases x,
{
    if x == 0 {
        0
    } else {
        ((x % 2) as nat) + popcount64(x / 2)
    }
}

/// `u64::count_ones` returns the number of ones in the binary representation
/// of its argument; the contract states exactly that count.
pub assume_specification[ u64::count_ones ](x: u64) -> (r: u32)
    ensures
        r == popcount64(x),
;

/// Sum of the population counts of the first `n` lanes.
pub open spec fn popcount_lanes(lanes: Seq<u64>, n: int) -> nat
    decreases n,
{
    if n <= 0 {
        0
    } else {
        popcount_lanes(lanes, n - 1) + popcount64(lanes[n - 1])
    }
}

/// Population count of a whole signature.
pub open spec fn popcount_sig(lanes: Seq<u64>) -> nat {
    popcount_lanes(lanes, lanes.len() as int)
}

/// Lane-wise AND of two signatures of equal width.
pub open spec fn and_lanes(a: Seq<u64>, b: Seq<u64>) -> Seq<u64> {
    Seq::new(a.len(), |i: int| a[i] & b[i])
}

proof fn lemma_popcount_below(x: u64, n: nat)
    requires
        x < pow2(n),
    ensures
        popcount64(x) <= n,
    decreases n,
{
    if n == 0 {
        lemma2_to64();
    } else {
        lemma_pow2_unfold(n);
        if x != 0 {
            lemma_popcount_below(x / 2, (n - 1) as nat);
        }
    }
}

/// A 64-bit word has at most 64 one bits.
pub proof fn lemma_popcount64_bound(x: u64)
    ensures
        popcount64(x) <= 64,
{
    lemma2_to64_rest();
    lemma_popcount_below(x, 64);
}

/// `n` lanes hold at most `64 * n` one bits.
pub proof fn lemma_popcount_lanes_bound(lanes: Seq<u64>, n: int)
    requires
        0 <= n <= lanes.len(),
    ensures
        popcount_lanes(lanes, n) <= 64 * n,
    decreases n,
{
    if n > 0 {
        lemma_popcount_lanes_bound(lanes, n - 1);
        lemma_popcount64_bound(lanes[n - 1]);
    }
}

/// The bits that two words share are bits of the first.
pub proof fn lemma_popcount64_and(a: u64, b: u64)
    ensures
        popcount64(a & b) <= popcount64(a),
        popcount64(a & b) <= popcount64(b),
    decreases a,
{
    if a != 0 {
        assert((a & b) / 2 == (a / 2) & (b / 2)) by (bit_vector);
        assert((a & b) % 2 <= a % 2 && (a & b) % 2 <= b % 2) by (bit_vector);
        assert(a != 0 ==> a / 2 < a) by (bit_vector);
        lemma_popcount64_and(a / 2, b / 2);
        if b == 0 {
            assert((a & b) == 0) by (bit_vector)
                requires
                    b == 0,
            ;
        }
    } else {
        assert((a & b) == 0) by (bit_vector)
            requires
                a == 0,
        ;
    }
}

/// Two signatures share no more bits than either has.
pub proof fn lemma_overlap_bound(a: Seq<u64>, b: Seq<u64>, n: int)
    requires
        0 <= n <= a.len(),
        a.len() == b.len(),
    ensures
        popcount_lanes(and_lanes(a, b), n) <= popcount_lanes(a, n),
        popcount_lanes(and_lanes(a, b), n) <= popcount_lanes(b, n),
    decreases n,
{
    if n > 0 {
        lemma_overlap_bound(a, b, n - 1);
        lemma_popcount64_and(a[n - 1], b[n - 1]);
    }
}

/// The path this library computes with.
pub fn chosen_path() -> (p: SimdPath)
    ensures
        p == SimdPath::Scalar,
{
    SimdPath::Scalar
}

pub fn overlap_popcnt_scalar(a: &[u64; 4], b: &[u64; 4]) -> (r: u32)
    ensures
        r == popcount_sig(and_lanes(a@, b@)),
        r <= 256,
{
    proof {
        let m = and_lanes(a@, b@);
        lemma_popcount64_bound(m[0]);
        lemma_popcount64_bound(m[1]);
        lemma_popcount64_bound(m[2]);
        lemma_popcount64_bound(m[3]);
        reveal_with_fuel(popcount_lanes, 5);
    }
    (a[0] & b[0]).count_ones() + (a[1] & b[1]).count_ones() + (a[2] & b[2]).count_ones() + (a[3]
        & b[3]).count_ones()
}

pub fn popcnt4_scalar(x: &[u64; 4]) -> (r: u32)
    ensures
        r == popcount_sig(x@),
        r <= 256,
{
    proof {
        lemma_popcount64_bound(x[0]);
        lemma_popcount64_bound(x[1]);
        lemma_popcount64_bound(x[2]);
        lemma_popcount64_bound(x[3]);
        reveal_with_fuel(popcount_lanes, 5);
    }
    x[0].count_ones() + x[1].count_ones() + x[2].count_ones() + x[3].count_ones()
}

pub fn popcnt4096_scalar(a: &[u64; 64], b: &[u64; 64]) -> (r: u32)
    ensures
        r == popcount_sig(and_lanes(a@, b@)),
        r <= 4096,
{
    let ghost m = and_lanes(a@, b@);
    let mut sum: u32 = 0;
    let mut i: usize = 0;
    while i < 64
        invariant
            i <= 64,
            m == and_lanes(a@, b@),
            sum == popcount_lanes(m, i as int),
            sum <= 64 * i,
        decreases 64 - i,
    {
        proof {
            lemma_popcount64_bound(m[i as int]);
        }
        sum = sum + (a[i] & b[i]).count_ones();
        i = i + 1;
    }
    sum
}

/// Population count of `a AND b` for 256-bit signatures.
pub fn overlap_popcnt(a: &[u64; 4], b: &[u64; 4]) -> (r: u32)
    ensures
        r == popcount_sig(and_lanes(a@, b@)),
        r <= 256,
{
    overlap_popcnt_scalar(a, b)
}

/// Population count of a 256-bit signature.
pub fn popcnt4(x: &[u64; 4]) -> (r: u32)
    ensures
        r == popcount_sig(x@),
        r <= 256,
{
    popcnt4_scalar(x)
}

/// Population count of `a AND b` for 4096-bit signatures.
pub fn popcnt4096_pair(a: &[u64; 64], b: &[u64; 64]) -> (r: u32)
    ensures
        r == popcount_sig(and_lanes(a@, b@)),
        r <= 4096,
{
    popcnt4096_scalar(a, b)
}

/// Population count of a single 4096-bit signature.
pub fn popcnt4096_self(x: &[u64; 64]) -> (r: u32)
    ensures
        r == popcount_sig(x@),
        r <= 4096,
{
    let mut sum: u32 = 0;
    let mut i: usize = 0;
    while i < 64
        invariant
            i <= 64,
            sum == popcount_lanes(x@, i as int),
            sum <= 64 * i,
        decreases 64 - i,
    {
        proof {
            lemma_popcount64_bound(x[i as int]);
        }
        sum = sum + x[i].count_ones();
        i = i + 1;
    }
    sum
}

} // verus!
