//! Byte-wise text handling: normalization, tokenization, base-36 prefix
//! indices and the short-token hash.
//!
//! Text is a sequence of bytes. Nothing here decodes UTF-8: a byte outside
//! `[0-9A-Za-z ]` is a separator like any other.

use vstd::prelude::*;

verus! {

/// Base of the three-character prefix table.
pub const PREF3_BASE: usize = 36;

/// Number of three-character prefix buckets, `36^3`.
pub const PREF3_SIZE: usize = 46656;

/// Seed of the short-token hash.
pub const TOKEN_HASH_SEED: u64 = 0x9E37_79B9_7F4A_7C15;

/// Multiplier of the short-token hash.
pub const TOKEN_HASH_MUL: u64 = 0x9E37_0001_0000_0001;

pub open spec fn lower(b: u8) -> u8 {
    if 65 <= b <= 90 {
        (b + 32) as u8
    } else {
        b
    }
}

pub open spec fn alnum(b: u8) -> bool {
    (48 <= b <= 57) || (97 <= b <= 122) || (65 <= b <= 90)
}

/// What one byte becomes under normalization: ASCII letters are lowered,
/// digits and spaces stay, every other byte becomes a space.
pub open spec fn norm_byte(b: u8) -> u8 {
    let c = lower(b);
    if alnum(c) || c == 32 {
        c
    } else {
        32
    }
}

/// Normalized form of a text.
pub open spec fn normalized(s: Seq<u8>) -> Seq<u8> {
    Seq::new(s.len(), |i: int| norm_byte(s[i]))
}

/// Digit value of a byte in base 36: letters (either case) are 0..25,
/// decimal digits are 26..35.
pub open spec fn digit36(b: u8) -> Option<u8> {
    let c = lower(b);
    if 97 <= c <= 122 {
        Some((c - 97) as u8)
    } else if 48 <= c <= 57 {
        Some((26 + (c - 48)) as u8)
    } else {
        None
    }
}

/// Bucket of a three-byte prefix, when all three bytes are base-36 digits.
pub open spec fn prefix3(b0: u8, b1: u8, b2: u8) -> Option<int> {
    match (digit36(b0), digit36(b1), digit36(b2)) {
        (Some(x), Some(y), Some(z)) => Some(x * 36 * 36 + y * 36 + z),
        _ => None,
    }
}

/// First position at or after `i` that holds an alphanumeric byte, or the
/// length of `s` when there is none.
pub open spec fn skip_gap(s: Seq<u8>, i: int) -> int
    decreases s.len() - i,
{
    if 0 <= i < s.len() && !alnum(s[i]) {
        skip_gap(s, i + 1)
    } else {
        i
    }
}

/// First position at or after `i` that does not hold an alphanumeric byte,
/// or the length of `s` when there is none.
pub open spec fn run_end(s: Seq<u8>, i: int) -> int
    decreases s.len() - i,
{
    if 0 <= i < s.len() && alnum(s[i]) {
        run_end(s, i + 1)
    } else {
        i
    }
}

/// The maximal alphanumeric runs of `s` that start at or after `i`, in
/// order of appearance.
pub open spec fn tokens_from(s: Seq<u8>, i: int) -> Seq<Seq<u8>>
    decreases s.len() - i,
{
    let a = skip_gap(s, i);
    let b = run_end(s, a);
    if 0 <= i <= a < b <= s.len() {
        seq![s.subrange(a, b)] + tokens_from(s, b)
    } else {
        Seq::empty()
    }
}

/// The tokens of `s`: its maximal alphanumeric runs, in order.
pub open spec fn tokens(s: Seq<u8>) -> Seq<Seq<u8>> {
    tokens_from(s, 0)
}

/// The byte sequences held by a list of owned byte strings.
pub open spec fn views(v: Seq<Vec<u8>>) -> Seq<Seq<u8>> {
    Seq::new(v.len(), |i: int| v[i]@)
}

/// One step of the short-token hash.
pub open spec fn hash_step(h: u64, b: u8) -> u64 {
    let x = h ^ (b as u64);
    ((x << 13) | (x >> 51)).wrapping_mul(TOKEN_HASH_MUL)
}

/// The hash state after absorbing every byte of `tok`.
pub open spec fn hash_absorb(tok: Seq<u8>) -> u64
    decreases tok.len(),
{
    if tok.len() == 0 {
        TOKEN_HASH_SEED
    } else {
        hash_step(hash_absorb(tok.drop_last()), tok.last())
    }
}

/// The 64-bit hash of a token.
pub open spec fn token_hash(tok: Seq<u8>) -> u64 {
    let h = hash_absorb(tok);
    h ^ (h >> 33)
}

pub fn to_lower_ascii(b: u8) -> (r: u8)
    ensures
        r == lower(b),
{
    if 65 <= b && b <= 90 {
        b + 32
    } else {
        b
    }
}

pub fn is_alnum(b: u8) -> (r: bool)
    ensures
        r == alnum(b),
{
    (48 <= b && b <= 57) || (97 <= b && b <= 122) || (65 <= b && b <= 90)
}

pub fn char36(b: u8) -> (r: Option<u8>)
    ensures
        r == digit36(b),
        r is Some ==> r->0 < 36,
{
    let c = to_lower_ascii(b);
    if 97 <= c && c <= 122 {
        Some(c - 97)
    } else if 48 <= c && c <= 57 {
        Some(26 + (c - 48))
    } else {
        None
    }
}

pub fn pref3_index(b0: u8, b1: u8, b2: u8) -> (r: Option<usize>)
    ensures
        r is Some <==> prefix3(b0, b1, b2) is Some,
        r is Some ==> r->0 == prefix3(b0, b1, b2)->0 && r->0 < PREF3_SIZE,
{
    match char36(b0) {
        None => None,
        Some(x) => match char36(b1) {
            None => None,
            Some(y) => match char36(b2) {
                None => None,
                Some(z) => {
                    let idx: usize = (x as usize) * PREF3_BASE * PREF3_BASE + (y as usize)
                        * PREF3_BASE + (z as usize);
                    Some(idx)
                },
            },
        },
    }
}

/// Replaces the contents of `out` with the normalized form of `s`.
pub fn normalize_ascii_inplace(s: &[u8], out: &mut Vec<u8>)
    ensures
        final(out)@ == normalized(s@),
{
    out.clear();
    let n = s.len();
    let mut i: usize = 0;
    while i < n
        invariant
            n == s@.len(),
            i <= n,
            out@.len() == i,
            forall|j: int| 0 <= j < i ==> out@[j] == norm_byte(s@[j]),
        decreases n - i,
    {
        let c = to_lower_ascii(s[i]);
        if is_alnum(c) || c == 32 {
            out.push(c);
        } else {
            out.push(32);
        }
        i = i + 1;
    }
    assert(out@ =~= normalized(s@));
}

/// Normalizing twice is the same as normalizing once.
pub proof fn lemma_normalize_idempotent(s: Seq<u8>)
    ensures
        normalized(normalized(s)) == normalized(s),
{
    assert(normalized(normalized(s)) =~= normalized(s));
}

proof fn lemma_skip_gap_bounds(s: Seq<u8>, i: int)
    requires
        0 <= i <= s.len(),
    ensures
        i <= skip_gap(s, i) <= s.len(),
        skip_gap(s, i) < s.len() ==> alnum(s[skip_gap(s, i)]),
        forall|j: int| i <= j < skip_gap(s, i) ==> !alnum(#[trigger] s[j]),
    decreases s.len() - i,
{
    if i < s.len() && !alnum(s[i]) {
        lemma_skip_gap_bounds(s, i + 1);
    }
}

proof fn lemma_run_end_bounds(s: Seq<u8>, i: int)
    requires
        0 <= i <= s.len(),
    ensures
        i <= run_end(s, i) <= s.len(),
        run_end(s, i) < s.len() ==> !alnum(s[run_end(s, i)]),
        forall|j: int| i <= j < run_end(s, i) ==> alnum(#[trigger] s[j]),
        i < s.len() && alnum(s[i]) ==> i < run_end(s, i),
    decreases s.len() - i,
{
    if i < s.len() && alnum(s[i]) {
        lemma_run_end_bounds(s, i + 1);
    }
}

/// Every token is a non-empty run of alphanumeric bytes.
pub proof fn lemma_tokens_from_shape(s: Seq<u8>, i: int)
    requires
        0 <= i <= s.len(),
    ensures
        forall|k: int|
            0 <= k < tokens_from(s, i).len() ==> {
                let t = #[trigger] tokens_from(s, i)[k];
                &&& 1 <= t.len() <= s.len()
                &&& forall|j: int| 0 <= j < t.len() ==> alnum(#[trigger] t[j])
            },
    decreases s.len() - i,
{
    let a = skip_gap(s, i);
    let b = run_end(s, a);
    lemma_skip_gap_bounds(s, i);
    lemma_run_end_bounds(s, a);
    if a < b {
        lemma_tokens_from_shape(s, b);
        let rest = tokens_from(s, b);
        let head = s.subrange(a, b);
        assert forall|k: int| 0 <= k < tokens_from(s, i).len() implies {
            let t = #[trigger] tokens_from(s, i)[k];
            &&& 1 <= t.len() <= s.len()
            &&& forall|j: int| 0 <= j < t.len() ==> alnum(#[trigger] t[j])
        } by {
            let t = tokens_from(s, i)[k];
            if k == 0 {
                assert(t == head);
                assert forall|j: int| 0 <= j < t.len() implies alnum(#[trigger] t[j]) by {
                    assert(t[j] == s[a + j]);
                }
            } else {
                assert(t == rest[k - 1]);
            }
        }
    }
}

/// Every token of a text is a non-empty run of alphanumeric bytes.
pub proof fn lemma_tokens_shape(s: Seq<u8>)
    ensures
        forall|k: int|
            0 <= k < tokens(s).len() ==> {
                let t = #[trigger] tokens(s)[k];
                &&& 1 <= t.len() <= s.len()
                &&& forall|j: int| 0 <= j < t.len() ==> alnum(#[trigger] t[j])
            },
{
    lemma_tokens_from_shape(s, 0);
}

/// `a..b` is a maximal alphanumeric run of `s`: non-empty, alphanumeric
/// throughout, and neither preceded nor followed by an alphanumeric byte.
pub open spec fn is_run(s: Seq<u8>, a: int, b: int) -> bool {
    &&& 0 <= a < b <= s.len()
    &&& forall|j: int| a <= j < b ==> alnum(#[trigger] s[j])
    &&& (a == 0 || !alnum(s[a - 1]))
    &&& (b == s.len() || !alnum(s[b]))
}

proof fn lemma_run_end_is_end(s: Seq<u8>, a: int, b: int)
    requires
        0 <= a <= b <= s.len(),
        forall|j: int| a <= j < b ==> alnum(#[trigger] s[j]),
        b == s.len() || !alnum(s[b]),
    ensures
        run_end(s, a) == b,
    decreases b - a,
{
    if a < b {
        assert(alnum(s[a]));
        lemma_run_end_is_end(s, a + 1, b);
    }
}

/// Every token from `i` on is a maximal run that starts at or after `i`,
/// when `i` is not inside a run.
pub proof fn lemma_tokens_are_runs(s: Seq<u8>, i: int, k: int)
    requires
        0 <= i <= s.len(),
        i == 0 || i == s.len() || !alnum(s[i - 1]) || !alnum(s[i]),
        0 <= k < tokens_from(s, i).len(),
    ensures
        exists|a: int, b: int|
            i <= a && is_run(s, a, b) && tokens_from(s, i)[k] == #[trigger] s.subrange(a, b),
    decreases s.len() - i,
{
    let a = skip_gap(s, i);
    let b = run_end(s, a);
    lemma_skip_gap_bounds(s, i);
    lemma_run_end_bounds(s, a);
    if a > i {
        assert(!alnum(s[a - 1]));
    }
    assert(is_run(s, a, b));
    if k == 0 {
        assert(tokens_from(s, i)[0] == s.subrange(a, b));
    } else {
        assert(tokens_from(s, i)[k] == tokens_from(s, b)[k - 1]);
        lemma_tokens_are_runs(s, b, k - 1);
        let (a2, b2) = choose|a2: int, b2: int|
            b <= a2 && is_run(s, a2, b2) && tokens_from(s, b)[k - 1] == #[trigger] s.subrange(
                a2,
                b2,
            );
        assert(i <= a2);
    }
}

/// Every maximal run that starts at or after `i` is a token from `i` on.
pub proof fn lemma_runs_are_tokens(s: Seq<u8>, i: int, a: int, b: int)
    requires
        0 <= i <= a,
        is_run(s, a, b),
    ensures
        exists|k: int|
            0 <= k < tokens_from(s, i).len() && #[trigger] tokens_from(s, i)[k] == s.subrange(
                a,
                b,
            ),
    decreases s.len() - i,
{
    let a0 = skip_gap(s, i);
    let b0 = run_end(s, a0);
    lemma_skip_gap_bounds(s, i);
    lemma_run_end_bounds(s, a0);
    assert(alnum(s[a]));
    if a0 > a {
        assert(!alnum(s[a]));
    }
    assert(a0 <= a);
    if a0 == a {
        lemma_run_end_is_end(s, a, b);
        assert(tokens_from(s, i)[0] == s.subrange(a, b));
    } else {
        // `a` is past the first run: it starts a run, so the byte before it
        // is no part of one
        if a < b0 {
            assert(alnum(s[a - 1]));
        }
        assert(b0 <= a);
        lemma_runs_are_tokens(s, b0, a, b);
        let k = choose|k: int|
            0 <= k < tokens_from(s, b0).len() && #[trigger] tokens_from(s, b0)[k] == s.subrange(
                a,
                b,
            );
        assert(tokens_from(s, i)[k + 1] == tokens_from(s, b0)[k]);
    }
}

/// Copies `s[a..b]` into a fresh vector.
pub fn copy_range(s: &[u8], a: usize, b: usize) -> (r: Vec<u8>)
    requires
        a <= b <= s@.len(),
    ensures
        r@ == s@.subrange(a as int, b as int),
{
    let mut r: Vec<u8> = Vec::new();
    let mut i: usize = a;
    while i < b
        invariant
            a <= i <= b <= s@.len(),
            r@ == s@.subrange(a as int, i as int),
        decreases b - i,
    {
        r.push(s[i]);
        i = i + 1;
        assert(r@ =~= s@.subrange(a as int, i as int));
    }
    r
}

/// Splits `bytes` into its tokens, in order of appearance.
pub fn tokenize_bytes(bytes: &[u8]) -> (toks: Vec<Vec<u8>>)
    ensures
        views(toks@) == tokens(bytes@),
        forall|k: int| 0 <= k < toks@.len() ==> 1 <= (#[trigger] toks@[k])@.len() <= bytes@.len(),
{
    let n = bytes.len();
    let mut toks: Vec<Vec<u8>> = Vec::new();
    let mut i: usize = 0;
    proof {
        assert(views(toks@) =~= Seq::<Seq<u8>>::empty());
        lemma_tokens_shape(bytes@);
    }
    while i < n
        invariant
            n == bytes@.len(),
            i <= n,
            tokens(bytes@) == views(toks@) + tokens_from(bytes@, i as int),
        decreases n - i,
    {
        let ghost i0 = i as int;
        while i < n && !is_alnum(bytes[i])
            invariant
                n == bytes@.len(),
                i0 <= i <= n,
                skip_gap(bytes@, i0) == skip_gap(bytes@, i as int),
            decreases n - i,
        {
            i = i + 1;
        }
        if i < n {
            let start = i;
            i = i + 1;
            while i < n && is_alnum(bytes[i])
                invariant
                    n == bytes@.len(),
                    start < i <= n,
                    alnum(bytes@[start as int]),
                    run_end(bytes@, start as int) == run_end(bytes@, i as int),
                decreases n - i,
            {
                i = i + 1;
            }
            let tok = copy_range(bytes, start, i);
            proof {
                let before = views(toks@);
                assert(before.len() == toks@.len());
                assert(skip_gap(bytes@, i0) == start);
                assert(run_end(bytes@, start as int) == i);
                assert(tokens_from(bytes@, i0) == seq![bytes@.subrange(start as int, i as int)]
                    + tokens_from(bytes@, i as int));
                assert(views(toks@.push(tok)) =~= before.push(tok@));
                assert(before.push(tok@) + tokens_from(bytes@, i as int) =~= before + (seq![tok@]
                    + tokens_from(bytes@, i as int)));
            }
            toks.push(tok);
        } else {
            proof {
                assert(skip_gap(bytes@, i0) == n);
                assert(tokens_from(bytes@, i0) =~= Seq::<Seq<u8>>::empty());
                assert(tokens_from(bytes@, i as int) =~= Seq::<Seq<u8>>::empty());
            }
        }
    }
    proof {
        assert(tokens_from(bytes@, n as int) =~= Seq::<Seq<u8>>::empty());
        assert(views(toks@) =~= tokens(bytes@));
        assert forall|k: int| 0 <= k < toks@.len() implies 1 <= (#[trigger] toks@[k])@.len()
            <= bytes@.len() by {
            assert(tokens(bytes@)[k] == toks@[k]@);
        }
    }
    toks
}

/// The 64-bit hash of a token.
pub fn hash_token64(tok: &[u8]) -> (r: u64)
    ensures
        r == token_hash(tok@),
{
    let mut h: u64 = TOKEN_HASH_SEED;
    let n = tok.len();
    let mut i: usize = 0;
    while i < n
        invariant
            n == tok@.len(),
            i <= n,
            h == hash_absorb(tok@.subrange(0, i as int)),
        decreases n - i,
    {
        let x: u64 = h ^ (tok[i] as u64);
        proof {
            let cur = tok@.subrange(0, i as int + 1);
            assert(cur.drop_last() =~= tok@.subrange(0, i as int));
            assert(cur.last() == tok@[i as int]);
        }
        h = ((x << 13) | (x >> 51)).wrapping_mul(TOKEN_HASH_MUL);
        i = i + 1;
    }
    assert(tok@.subrange(0, n as int) =~= tok@);
    h ^ (h >> 33)
}

} // verus!
