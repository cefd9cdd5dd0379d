//! N-gram bit signatures.
//!
//! A text is normalized, every overlapping 3-gram and 2-gram is hashed, and
//! each hash sets four bits of a 4096-bit signature. The 256-bit signature
//! used by segments and queries is the first four lanes of it.

use vstd::prelude::*;
use vstd::std_specs::bits::{axiom_u64_trailing_zeros, u64_trailing_zeros};
use vstd::arithmetic::power2::{lemma2_to64, lemma2_to64_rest, lemma_pow2_unfold, pow2};
use crate::simd::popcount64;
use crate::text::{normalize_ascii_inplace, normalized};

verus! {

/// Constant mixed into every packed gram before finalization.
pub const K0: u64 = 0x9e37_79b9_7f4a_7c15;

/// First multiplier of the finalizer.
pub const FMIX1: u64 = 0xff51_afd7_ed55_8ccd;

/// Second multiplier of the finalizer.
pub const FMIX2: u64 = 0xc4ce_b9fe_1a85_ec53;

/// Hash of up to three bytes packed little-endian into a 64-bit word.
#[verifier::opaque]
pub open spec fn mix64(b0: u8, b1: u8, b2: u8) -> u64 {
    let v = (b0 as u64) | ((b1 as u64) << 8) | ((b2 as u64) << 16);
    let a0 = K0 ^ v;
    let a1 = a0 ^ (a0 >> 33);
    let a2 = a1.wrapping_mul(FMIX1);
    let a3 = a2 ^ (a2 >> 33);
    let a4 = a3.wrapping_mul(FMIX2);
    a4 ^ (a4 >> 33)
}

/// One round of the 64-bit xorshift generator.
#[verifier::opaque]
pub open spec fn xorshift(x: u64) -> u64 {
    let a = x ^ (x << 13);
    let b = a ^ (a >> 7);
    b ^ (b << 17)
}

/// Generator state after `r` rounds, starting from the gram hash `h`.
pub open spec fn round_state(h: u64, r: nat) -> u64
    decreases r,
{
    if r == 0 {
        h
    } else {
        xorshift(round_state(h, (r - 1) as nat))
    }
}

/// Bit position contributed by round `r` of the gram hash `h`.
pub open spec fn round_bit(h: u64, r: nat) -> int {
    (round_state(h, r) & 0xFFF) as int
}

/// Whether one of the first `r` rounds of `h` contributes position `p`.
pub open spec fn rounds_set(h: u64, r: nat, p: int) -> bool
    decreases r,
{
    if r == 0 {
        false
    } else {
        rounds_set(h, (r - 1) as nat, p) || round_bit(h, (r - 1) as nat) == p
    }
}

/// Whether the gram with hash `h` sets position `p`: each gram contributes
/// four positions.
pub open spec fn gram_sets(h: u64, p: int) -> bool {
    rounds_set(h, 4, p)
}

pub open spec fn gram3_at(n: Seq<u8>, i: int) -> u64 {
    mix64(n[i], n[i + 1], n[i + 2])
}

pub open spec fn gram2_at(n: Seq<u8>, i: int) -> u64 {
    mix64(n[i], n[i + 1], 0)
}

/// Whether one of the first `m` 3-grams of `n` sets position `p`.
pub open spec fn grams3_set(n: Seq<u8>, m: int, p: int) -> bool {
    exists|i: int| 0 <= i < m && i + 2 < n.len() && gram_sets(#[trigger] gram3_at(n, i), p)
}

/// Whether one of the first `m` 2-grams of `n` sets position `p`.
pub open spec fn grams2_set(n: Seq<u8>, m: int, p: int) -> bool {
    exists|i: int| 0 <= i < m && i + 1 < n.len() && gram_sets(#[trigger] gram2_at(n, i), p)
}

/// Whether the normalized text `n` sets position `p` of its signature:
/// some 3-gram or 2-gram of it does, or `n` is a single byte whose own
/// projection does.
pub open spec fn text_sets(n: Seq<u8>, p: int) -> bool {
    ||| grams3_set(n, n.len() as int, p)
    ||| grams2_set(n, n.len() as int, p)
    ||| (n.len() == 1 && gram_sets(mix64(n[0], 0, 0), p))
}

/// Bit `j` of the word `x`.
pub open spec fn bit64(x: u64, j: u64) -> bool {
    (x >> j) & 1 == 1
}

/// Bit `p` of a signature held as 64-bit lanes, lowest lane first.
pub open spec fn sig_bit(lanes: Seq<u64>, p: int) -> bool {
    bit64(lanes[p / 64], (p % 64) as u64)
}

/// `lanes` is the 4096-bit signature of the normalized text `n`.
pub open spec fn is_sig4096(lanes: Seq<u64>, n: Seq<u8>) -> bool {
    &&& lanes.len() == 64
    &&& forall|p: int| 0 <= p < 4096 ==> #[trigger] sig_bit(lanes, p) == text_sets(n, p)
}

/// `lanes` is the 256-bit signature of the normalized text `n`: the low 256
/// bits of the 4096-bit one.
pub open spec fn is_sig256(lanes: Seq<u64>, n: Seq<u8>) -> bool {
    &&& lanes.len() == 4
    &&& forall|p: int| 0 <= p < 256 ==> #[trigger] sig_bit(lanes, p) == text_sets(n, p)
}

/// The 256-bit signature of a text. It exists and is unique, so the choice
/// is no choice: see `lemma_sig256_unique`.
pub open spec fn signature256(text: Seq<u8>) -> Seq<u64> {
    choose|lanes: Seq<u64>| is_sig256(lanes, normalized(text))
}

proof fn lemma_or_bit(w: u64, k: u64, j: u64)
    requires
        k < 64,
        j < 64,
    ensures
        bit64(w | (1u64 << k), j) == (bit64(w, j) || j == k),
{
    assert(k < 64 && j < 64 ==> ((((w | (1u64 << k)) >> j) & 1 == 1) == (((w >> j) & 1 == 1) || j
        == k))) by (bit_vector);
}

proof fn lemma_zero_bit(j: u64)
    requires
        j < 64,
    ensures
        !bit64(0, j),
{
    assert(j < 64 ==> ((0u64 >> j) & 1 == 0)) by (bit_vector);
}

/// Number of positions below `n` at which `x` has a one bit.
pub open spec fn ones_below(x: u64, n: int) -> nat
    decreases n,
{
    if n <= 0 {
        0
    } else {
        ones_below(x, n - 1) + if bit64(x, (n - 1) as u64) {
            1nat
        } else {
            0nat
        }
    }
}

proof fn lemma_ones_below_halved(x: u64, n: int)
    requires
        0 <= n < 64,
    ensures
        ones_below(x, n + 1) == (x % 2) + ones_below(x / 2, n),
    decreases n,
{
    if n == 0 {
        assert(((x >> 0u64) & 1 == 1) == (x % 2 == 1)) by (bit_vector);
        assert(ones_below(x, 0) == 0);
        assert(ones_below(x / 2, 0) == 0);
    } else {
        lemma_ones_below_halved(x, n - 1);
        let j = n as u64;
        let i = (n - 1) as u64;
        assert(1 <= j < 64 && i == j - 1 ==> (((x >> j) & 1 == 1) == (((x / 2) >> i) & 1 == 1)))
            by (bit_vector);
    }
}

proof fn lemma_popcount_ones_below(x: u64, n: nat)
    requires
        n <= 64,
        x < pow2(n),
    ensures
        popcount64(x) == ones_below(x, n as int),
    decreases n,
{
    if n == 0 {
        lemma2_to64();
    } else {
        lemma_pow2_unfold(n);
        lemma_ones_below_halved(x, n - 1);
        lemma_popcount_ones_below(x / 2, (n - 1) as nat);
    }
}

/// The population count of a word is the number of its one bits.
pub proof fn lemma_popcount_counts_bits(x: u64)
    ensures
        popcount64(x) == ones_below(x, 64),
{
    lemma2_to64_rest();
    lemma_popcount_ones_below(x, 64);
}

/// Two words with the same bits are the same word.
pub proof fn lemma_bits_determine_word(x: u64, y: u64)
    requires
        forall|j: u64| j < 64 ==> bit64(x, j) == bit64(y, j),
    ensures
        x == y,
{
    let d = x ^ y;
    if d != 0 {
        axiom_u64_trailing_zeros(d);
        let t = u64_trailing_zeros(d) as u64;
        assert(t < 64);
        assert((d >> t) & 1 == 1);
        assert(t < 64 && ((x ^ y) >> t) & 1 == 1 ==> (((x >> t) & 1 == 1) != ((y >> t) & 1
            == 1))) by (bit_vector);
        assert(bit64(x, t) != bit64(y, t));
    } else {
        assert((x ^ y) == 0 ==> x == y) by (bit_vector);
    }
}

/// A text has exactly one 256-bit signature.
pub proof fn lemma_sig256_unique(a: Seq<u64>, b: Seq<u64>, n: Seq<u8>)
    requires
        is_sig256(a, n),
        is_sig256(b, n),
    ensures
        a == b,
{
    assert forall|l: int| 0 <= l < 4 implies a[l] == b[l] by {
        assert forall|j: u64| j < 64 implies bit64(a[l], j) == bit64(b[l], j) by {
            let p = 64 * l + j;
            assert(p / 64 == l && p % 64 == j);
            assert(sig_bit(a, p) == text_sets(n, p));
            assert(sig_bit(b, p) == text_sets(n, p));
        }
        lemma_bits_determine_word(a[l], b[l]);
    }
    assert(a =~= b);
}

/// A text has exactly one 4096-bit signature.
pub proof fn lemma_sig4096_unique(a: Seq<u64>, b: Seq<u64>, n: Seq<u8>)
    requires
        is_sig4096(a, n),
        is_sig4096(b, n),
    ensures
        a == b,
{
    assert forall|l: int| 0 <= l < 64 implies a[l] == b[l] by {
        assert forall|j: u64| j < 64 implies bit64(a[l], j) == bit64(b[l], j) by {
            let p = 64 * l + j;
            assert(p / 64 == l && p % 64 == j);
            assert(sig_bit(a, p) == text_sets(n, p));
            assert(sig_bit(b, p) == text_sets(n, p));
        }
        lemma_bits_determine_word(a[l], b[l]);
    }
    assert(a =~= b);
}

proof fn lemma_grams3_step(n: Seq<u8>, i: int, p: int)
    requires
        0 <= i,
    ensures
        grams3_set(n, i + 1, p) == (grams3_set(n, i, p) || (i + 2 < n.len() && gram_sets(
            gram3_at(n, i),
            p,
        ))),
{
    if grams3_set(n, i + 1, p) {
        let j = choose|j: int|
            0 <= j < i + 1 && j + 2 < n.len() && gram_sets(#[trigger] gram3_at(n, j), p);
        if j < i {
            assert(grams3_set(n, i, p));
        }
    }
    if grams3_set(n, i, p) {
        let j = choose|j: int|
            0 <= j < i && j + 2 < n.len() && gram_sets(#[trigger] gram3_at(n, j), p);
        assert(0 <= j < i + 1);
    }
}

proof fn lemma_grams3_all(n: Seq<u8>, i: int, p: int)
    requires
        0 <= i,
        i + 2 >= n.len(),
    ensures
        grams3_set(n, n.len() as int, p) == grams3_set(n, i, p),
{
    if grams3_set(n, n.len() as int, p) {
        let j = choose|j: int|
            0 <= j < n.len() && j + 2 < n.len() && gram_sets(#[trigger] gram3_at(n, j), p);
        assert(0 <= j < i);
    }
    if grams3_set(n, i, p) {
        let j = choose|j: int|
            0 <= j < i && j + 2 < n.len() && gram_sets(#[trigger] gram3_at(n, j), p);
        assert(0 <= j < n.len());
    }
}

proof fn lemma_grams2_step(n: Seq<u8>, i: int, p: int)
    requires
        0 <= i,
    ensures
        grams2_set(n, i + 1, p) == (grams2_set(n, i, p) || (i + 1 < n.len() && gram_sets(
            gram2_at(n, i),
            p,
        ))),
{
    if grams2_set(n, i + 1, p) {
        let j = choose|j: int|
            0 <= j < i + 1 && j + 1 < n.len() && gram_sets(#[trigger] gram2_at(n, j), p);
        if j < i {
            assert(grams2_set(n, i, p));
        }
    }
    if grams2_set(n, i, p) {
        let j = choose|j: int|
            0 <= j < i && j + 1 < n.len() && gram_sets(#[trigger] gram2_at(n, j), p);
        assert(0 <= j < i + 1);
    }
}

proof fn lemma_grams2_all(n: Seq<u8>, i: int, p: int)
    requires
        0 <= i,
        i + 1 >= n.len(),
    ensures
        grams2_set(n, n.len() as int, p) == grams2_set(n, i, p),
{
    if grams2_set(n, n.len() as int, p) {
        let j = choose|j: int|
            0 <= j < n.len() && j + 1 < n.len() && gram_sets(#[trigger] gram2_at(n, j), p);
        assert(0 <= j < i);
    }
    if grams2_set(n, i, p) {
        let j = choose|j: int|
            0 <= j < i && j + 1 < n.len() && gram_sets(#[trigger] gram2_at(n, j), p);
        assert(0 <= j < n.len());
    }
}

/// Normalized copy of a text.
pub fn normalize(s: &[u8]) -> (r: Vec<u8>)
    ensures
        r@ == normalized(s@),
{
    let mut out: Vec<u8> = Vec::new();
    normalize_ascii_inplace(s, &mut out);
    out
}

/// Hash of up to three bytes packed little-endian into a 64-bit word.
pub fn mix64_from3(b0: u8, b1: u8, b2: u8) -> (r: u64)
    ensures
        r == mix64(b0, b1, b2),
{
    reveal(mix64);
    let v: u64 = (b0 as u64) | ((b1 as u64) << 8) | ((b2 as u64) << 16);
    let mut a: u64 = K0 ^ v;
    a = a ^ (a >> 33);
    a = a.wrapping_mul(FMIX1);
    a = a ^ (a >> 33);
    a = a.wrapping_mul(FMIX2);
    a = a ^ (a >> 33);
    a
}

/// Sets in `sig` the four positions that the gram hash `h` contributes.
fn project(sig: &mut [u64; 64], h: u64)
    ensures
        forall|p: int|
            0 <= p < 4096 ==> #[trigger] sig_bit(final(sig)@, p) == (sig_bit(old(sig)@, p)
                || gram_sets(h, p)),
{
    let ghost start = sig@;
    let mut x: u64 = h;
    let mut r: usize = 0;
    while r < 4
        invariant
            r <= 4,
            x == round_state(h, r as nat),
            forall|p: int|
                0 <= p < 4096 ==> #[trigger] sig_bit(sig@, p) == (sig_bit(start, p) || rounds_set(
                    h,
                    r as nat,
                    p,
                )),
        decreases 4 - r,
    {
        let m: u64 = x & 0xFFF;
        assert(m < 4096) by (bit_vector)
            requires
                m == x & 0xFFF,
        ;
        let bit: usize = m as usize;
        let lane: usize = bit / 64;
        let off: u64 = (bit % 64) as u64;
        let ghost before = sig@;
        let w: u64 = sig[lane];
        sig[lane] = w | (1u64 << off);
        proof {
            assert forall|p: int| 0 <= p < 4096 implies #[trigger] sig_bit(sig@, p) == (sig_bit(
                start,
                p,
            ) || rounds_set(h, (r + 1) as nat, p)) by {
                assert(sig_bit(before, p) == (sig_bit(start, p) || rounds_set(h, r as nat, p)));
                if p / 64 == lane as int {
                    lemma_or_bit(w, off, (p % 64) as u64);
                }
            }
        }
        proof {
            reveal(xorshift);
        }
        x = x ^ (x << 13);
        x = x ^ (x >> 7);
        x = x ^ (x << 17);
        r = r + 1;
    }
}

/// Builds the 4096-bit signature of a text from its 3-grams and 2-grams.
pub fn sig4096_from_text(s: &[u8]) -> (sig: [u64; 64])
    ensures
        is_sig4096(sig@, normalized(s@)),
{
    let norm = normalize(s);
    let ghost n = norm@;
    let len = norm.len();
    let mut sig: [u64; 64] = [0u64; 64];
    proof {
        assert forall|p: int| 0 <= p < 4096 implies #[trigger] sig_bit(sig@, p) == grams3_set(
            n,
            0,
            p,
        ) by {
            lemma_zero_bit((p % 64) as u64);
        }
    }
    let mut i: usize = 0;
    while len >= 3 && i < len - 2
        invariant
            len == n.len(),
            n == norm@,
            i <= len,
            forall|p: int|
                0 <= p < 4096 ==> #[trigger] sig_bit(sig@, p) == grams3_set(n, i as int, p),
        decreases len - i,
    {
        let h = mix64_from3(norm[i], norm[i + 1], norm[i + 2]);
        let ghost before = sig@;
        project(&mut sig, h);
        proof {
            assert forall|p: int| 0 <= p < 4096 implies #[trigger] sig_bit(sig@, p) == grams3_set(
                n,
                i + 1,
                p,
            ) by {
                assert(sig_bit(before, p) == grams3_set(n, i as int, p));
                lemma_grams3_step(n, i as int, p);
            }
        }
        i = i + 1;
    }
    proof {
        assert forall|p: int| 0 <= p < 4096 implies #[trigger] sig_bit(sig@, p) == (grams3_set(
            n,
            n.len() as int,
            p,
        ) || grams2_set(n, 0, p)) by {
            assert(sig_bit(sig@, p) == grams3_set(n, i as int, p));
            lemma_grams3_all(n, i as int, p);
        }
    }
    let mut k: usize = 0;
    while len >= 2 && k < len - 1
        invariant
            len == n.len(),
            n == norm@,
            k <= len,
            forall|p: int|
                0 <= p < 4096 ==> #[trigger] sig_bit(sig@, p) == (grams3_set(n, n.len() as int, p)
                    || grams2_set(n, k as int, p)),
        decreases len - k,
    {
        let h = mix64_from3(norm[k], norm[k + 1], 0);
        let ghost before = sig@;
        project(&mut sig, h);
        proof {
            assert forall|p: int| 0 <= p < 4096 implies #[trigger] sig_bit(sig@, p) == (grams3_set(
                n,
                n.len() as int,
                p,
            ) || grams2_set(n, k + 1, p)) by {
                assert(sig_bit(before, p) == (grams3_set(n, n.len() as int, p) || grams2_set(
                    n,
                    k as int,
                    p,
                )));
                lemma_grams2_step(n, k as int, p);
            }
        }
        k = k + 1;
    }
    let ghost mid = sig@;
    proof {
        assert forall|p: int| 0 <= p < 4096 implies #[trigger] sig_bit(mid, p) == (grams3_set(
            n,
            n.len() as int,
            p,
        ) || grams2_set(n, n.len() as int, p)) by {
            assert(sig_bit(sig@, p) == (grams3_set(n, n.len() as int, p) || grams2_set(
                n,
                k as int,
                p,
            )));
            lemma_grams2_all(n, k as int, p);
        }
    }
    if len == 1 {
        let h = mix64_from3(norm[0], 0, 0);
        project(&mut sig, h);
    }
    proof {
        assert forall|p: int| 0 <= p < 4096 implies #[trigger] sig_bit(sig@, p) == text_sets(
            n,
            p,
        ) by {
            assert(sig_bit(mid, p) == (grams3_set(n, n.len() as int, p) || grams2_set(
                n,
                n.len() as int,
                p,
            )));
        }
    }
    sig
}

/// Builds the 256-bit signature of a text: the first four lanes of its
/// 4096-bit signature.
pub fn sig256(s: &[u8]) -> (sig: [u64; 4])
    ensures
        is_sig256(sig@, normalized(s@)),
        sig@ == signature256(s@),
{
    let full = sig4096_from_text(s);
    let sig: [u64; 4] = [full[0], full[1], full[2], full[3]];
    proof {
        assert forall|p: int| 0 <= p < 256 implies #[trigger] sig_bit(sig@, p) == text_sets(
            normalized(s@),
            p,
        ) by {
            assert(sig@[p / 64] == full@[p / 64]);
            assert(sig_bit(full@, p) == text_sets(normalized(s@), p));
        }
        assert(is_sig256(sig@, normalized(s@)));
        lemma_sig256_unique(sig@, signature256(s@), normalized(s@));
    }
    sig
}

/// Lane `i` of the 512-bit fold: the XOR of every eighth lane of `full`,
/// starting at `i`.
pub open spec fn fold_lane(full: Seq<u64>, i: int) -> u64 {
    full[i] ^ full[i + 8] ^ full[i + 16] ^ full[i + 24] ^ full[i + 32] ^ full[i + 40] ^ full[i
        + 48] ^ full[i + 56]
}

/// Folds 4096 bits into 512 by XOR-ing every eighth lane.
pub fn fold4096_to_512(full: &[u64; 64]) -> (out: [u64; 8])
    ensures
        forall|i: int| 0 <= i < 8 ==> #[trigger] out@[i] == fold_lane(full@, i),
{
    let mut out: [u64; 8] = [0u64; 8];
    let mut i: usize = 0;
    while i < 8
        invariant
            i <= 8,
            forall|j: int| 0 <= j < i ==> #[trigger] out@[j] == fold_lane(full@, j),
        decreases 8 - i,
    {
        out[i] = full[i] ^ full[i + 8] ^ full[i + 16] ^ full[i + 24] ^ full[i + 32] ^ full[i + 40]
            ^ full[i + 48] ^ full[i + 56];
        i = i + 1;
    }
    out
}

} // verus!
