//! Query analysis for one segment: the tokens of the query text, the query
//! bits from rarest to most common, the prefix list that every hit must be
//! on, and the bounded candidate list.

use vstd::prelude::*;
use crate::index::Segment;
use crate::postings::{
    ascending, common, extend_cap, head, intersect_bounded, intersect_in_place_bounded_tmp,
    lemma_common_members, lemma_head_ascending,
};
use crate::qgram::{lemma_popcount_counts_bits, ones_below, sig_bit};
use crate::simd::{popcount_lanes, popcount_sig};
use crate::text::{
    normalize_ascii_inplace, normalized, pref3_index, prefix3, tokenize_bytes, tokens, views,
};

verus! {

/// Most candidates that are ever scored for one segment.
pub const INTERSECT_CAP: usize = 512;

/// Most tokens, besides the last, that are looked up as exact matches.
pub const MAX_OTHER_TOKENS: usize = 4;

/// Longest token that is looked up as an exact match.
pub const SHORT_TOKEN_LEN: usize = 6;

/// The tokens of at most six bytes, in order.
pub open spec fn short_tokens(toks: Seq<Seq<u8>>) -> Seq<Seq<u8>>
    decreases toks.len(),
{
    if toks.len() == 0 {
        Seq::empty()
    } else {
        let r = short_tokens(toks.drop_last());
        if toks.last().len() <= SHORT_TOKEN_LEN {
            r.push(toks.last())
        } else {
            r
        }
    }
}

/// The tokens looked up as exact matches besides the last one: the first
/// four short tokens among all but the last.
pub open spec fn other_tokens(toks: Seq<Seq<u8>>) -> Seq<Seq<u8>> {
    if toks.len() > 1 {
        head(short_tokens(toks.drop_last()), MAX_OTHER_TOKENS as int)
    } else {
        Seq::empty()
    }
}

/// The positions below `upto` that are set in `sig`, ascending.
pub open spec fn set_bits(sig: Seq<u64>, upto: int) -> Seq<u16>
    decreases upto,
{
    if upto <= 0 {
        Seq::empty()
    } else {
        let r = set_bits(sig, upto - 1);
        if sig_bit(sig, upto - 1) {
            r.push((upto - 1) as u16)
        } else {
            r
        }
    }
}

/// Bit `a` is rarer than bit `b`: fewer rows have it, or as many and `a` is
/// the lower bit.
pub open spec fn rarer(freq: Seq<u32>, a: u16, b: u16) -> bool {
    freq[a as int] < freq[b as int] || (freq[a as int] == freq[b as int] && a < b)
}

/// Number of leading bits of `s` that are rarer than `b`.
pub open spec fn rank_pos(s: Seq<u16>, b: u16, freq: Seq<u32>) -> int
    decreases s.len(),
{
    if s.len() == 0 || !rarer(freq, s[0], b) {
        0
    } else {
        1 + rank_pos(s.drop_first(), b, freq)
    }
}

/// The bits ordered from rarest to most common.
pub open spec fn by_rarity(bits: Seq<u16>, freq: Seq<u32>) -> Seq<u16>
    decreases bits.len(),
{
    if bits.len() == 0 {
        Seq::empty()
    } else {
        let r = by_rarity(bits.drop_last(), freq);
        r.insert(rank_pos(r, bits.last(), freq), bits.last())
    }
}

/// Number of query bits, after the rarest, whose posting lists the
/// candidates are intersected with.
pub open spec fn extra_bits(grams: int) -> int {
    if grams < 5 {
        1
    } else if grams < 10 {
        2
    } else {
        3
    }
}

impl Segment {
    /// The list that every hit must be on: the rows with a token that
    /// starts like the last query token. Empty when there is no such
    /// constraint.
    pub open spec fn must_list(&self, toks: Seq<Seq<u8>>) -> Seq<u32> {
        if toks.len() == 0 {
            Seq::empty()
        } else {
            let l = toks.last();
            if l.len() >= 3 && prefix3(l[0], l[1], l[2]) is Some {
                self.pref3@[prefix3(l[0], l[1], l[2])->0]@
            } else if l.len() >= 1 {
                self.pref1@[l[0] as int]@
            } else {
                Seq::empty()
            }
        }
    }

    /// The query bits, rarest in this segment first.
    pub open spec fn query_bits(&self, sig: Seq<u64>) -> Seq<u16> {
        by_rarity(set_bits(sig, 256), self.bit_freq@)
    }

    /// The first candidates: from the must-list when there is one, else
    /// from the posting list of the rarest query bit.
    pub open spec fn seed(&self, must: Seq<u32>, qbits: Seq<u16>) -> Seq<u32> {
        if must.len() > 0 {
            head(must, INTERSECT_CAP as int)
        } else if qbits.len() > 0 {
            head(self.bit_postings@[qbits[0] as int]@, INTERSECT_CAP as int)
        } else {
            Seq::empty()
        }
    }

    /// The candidates after one more query bit: cut down to the rows that
    /// have it, unless no row has it.
    pub open spec fn prune_step(&self, cand: Seq<u32>, bit: u16) -> Seq<u32> {
        let list = self.bit_postings@[bit as int]@;
        if cand.len() == 0 || list.len() == 0 {
            cand
        } else {
            intersect_bounded(cand, list, INTERSECT_CAP as int)
        }
    }

    /// The candidates after the query bits `from..to` were applied in turn.
    pub open spec fn prune(&self, cand: Seq<u32>, qbits: Seq<u16>, from: int, to: int) -> Seq<u32>
        decreases to - from,
    {
        if from >= to {
            cand
        } else {
            self.prune(self.prune_step(cand, qbits[from]), qbits, from + 1, to)
        }
    }

    /// The rows that are scored for a query, before the test for a shared
    /// bit: seeded, pruned by the next rarest bits, and held to the
    /// must-list.
    pub open spec fn candidates_from(&self, must: Seq<u32>, qbits: Seq<u16>) -> Seq<u32> {
        let seeded = self.seed(must, qbits);
        let want = 1 + extra_bits(qbits.len() as int);
        let to = if want < qbits.len() {
            want
        } else {
            qbits.len() as int
        };
        let pruned = self.prune(seeded, qbits, 1, to);
        if must.len() > 0 {
            intersect_bounded(pruned, must, INTERSECT_CAP as int)
        } else {
            pruned
        }
    }

    /// The candidate rows of a query with signature `sig` and raw text
    /// `text`.
    pub open spec fn candidates(&self, sig: Seq<u64>, text: Seq<u8>) -> Seq<u32> {
        self.candidates_from(self.must_list(tokens(normalized(text))), self.query_bits(sig))
    }
}

/// A candidate list: ascending, no longer than the cap, and made of rows of
/// the segment.
pub open spec fn is_candidate_list(c: Seq<u32>, rows: int) -> bool {
    &&& ascending(c)
    &&& c.len() <= INTERSECT_CAP
    &&& forall|k: int| 0 <= k < c.len() ==> (#[trigger] c[k]) < rows
}

proof fn lemma_rank_pos_bounds(s: Seq<u16>, b: u16, freq: Seq<u32>)
    ensures
        0 <= rank_pos(s, b, freq) <= s.len(),
        forall|i: int| 0 <= i < rank_pos(s, b, freq) ==> rarer(freq, #[trigger] s[i], b),
        rank_pos(s, b, freq) < s.len() ==> !rarer(freq, s[rank_pos(s, b, freq)], b),
    decreases s.len(),
{
    if s.len() > 0 && rarer(freq, s[0], b) {
        let rest = s.drop_first();
        lemma_rank_pos_bounds(rest, b, freq);
        assert forall|i: int| 0 <= i < rank_pos(s, b, freq) implies rarer(
            freq,
            #[trigger] s[i],
            b,
        ) by {
            if i > 0 {
                assert(rest[i - 1] == s[i]);
            }
        }
        if rank_pos(s, b, freq) < s.len() {
            assert(rest[rank_pos(rest, b, freq)] == s[rank_pos(s, b, freq)]);
        }
    }
}

/// The rarity order holds the same bits as the list it orders, and no
/// bit of it comes after a bit that it is rarer than.
pub proof fn lemma_by_rarity_sorted(bits: Seq<u16>, freq: Seq<u32>)
    ensures
        by_rarity(bits, freq).len() == bits.len(),
        forall|k: int|
            0 <= k < bits.len() ==> bits.contains(#[trigger] by_rarity(bits, freq)[k]),
        forall|i: int, j: int|
            0 <= i < j < bits.len() ==> !rarer(
                freq,
                #[trigger] by_rarity(bits, freq)[j],
                #[trigger] by_rarity(bits, freq)[i],
            ),
    decreases bits.len(),
{
    if bits.len() > 0 {
        let init = bits.drop_last();
        let r = by_rarity(init, freq);
        let b = bits.last();
        lemma_by_rarity_sorted(init, freq);
        lemma_rank_pos_bounds(r, b, freq);
        let p = rank_pos(r, b, freq);
        let out = by_rarity(bits, freq);
        assert forall|k: int| 0 <= k < bits.len() implies bits.contains(#[trigger] out[k]) by {
            if k < p {
                assert(out[k] == r[k]);
                assert(init.contains(r[k]));
                let m = choose|m: int| 0 <= m < init.len() && init[m] == r[k];
                assert(bits[m] == r[k]);
            } else if k == p {
                assert(bits[bits.len() - 1] == out[k]);
            } else {
                assert(out[k] == r[k - 1]);
                assert(init.contains(r[k - 1]));
                let m = choose|m: int| 0 <= m < init.len() && init[m] == r[k - 1];
                assert(bits[m] == r[k - 1]);
            }
        }
        assert forall|i: int, j: int| 0 <= i < j < bits.len() implies !rarer(
            freq,
            #[trigger] out[j],
            #[trigger] out[i],
        ) by {
            if j < p {
                assert(out[i] == r[i] && out[j] == r[j]);
            } else if j == p {
                assert(out[i] == r[i]);
                assert(rarer(freq, r[i], b));
            } else if i < p {
                assert(out[i] == r[i] && out[j] == r[j - 1]);
            } else if i == p {
                assert(out[j] == r[j - 1]);
                assert(!rarer(freq, r[p], b));
                if j - 1 > p {
                    assert(!rarer(freq, r[j - 1], r[p]));
                }
            } else {
                assert(out[i] == r[i - 1] && out[j] == r[j - 1]);
            }
        }
    }
}

proof fn lemma_set_bits_len(sig: Seq<u64>, l: int, n: int)
    requires
        0 <= l <= sig.len(),
        0 <= n <= 64,
        l == sig.len() ==> n == 0,
        64 * l + n <= 65536,
    ensures
        set_bits(sig, 64 * l + n).len() == popcount_lanes(sig, l) + if n > 0 {
            ones_below(sig[l], n)
        } else {
            0
        },
    decreases l, n,
{
    if n == 0 {
        if l > 0 {
            lemma_set_bits_len(sig, l - 1, 64);
            lemma_popcount_counts_bits(sig[l - 1]);
        }
    } else {
        lemma_set_bits_len(sig, l, n - 1);
        let p = 64 * l + n - 1;
        assert(p / 64 == l && p % 64 == n - 1);
        assert(ones_below(sig[l], 0) == 0);
    }
}

/// A 256-bit signature has as many set bits listed as its population
/// count says, in whatever order.
pub proof fn lemma_query_bits_count(sig: Seq<u64>, freq: Seq<u32>)
    requires
        sig.len() == 4,
    ensures
        set_bits(sig, 256).len() == popcount_sig(sig),
        by_rarity(set_bits(sig, 256), freq).len() == popcount_sig(sig),
{
    lemma_set_bits_len(sig, 4, 0);
    lemma_by_rarity_sorted(set_bits(sig, 256), freq);
}

/// Puts the set bits of `sig` into `qbits`, rarest first.
pub fn gather_bits(sig: &[u64; 4], freq: &Vec<u32>, qbits: &mut Vec<u16>)
    requires
        freq@.len() == 256,
    ensures
        final(qbits)@ == by_rarity(set_bits(sig@, 256), freq@),
        forall|k: int| 0 <= k < final(qbits)@.len() ==> (#[trigger] final(qbits)@[k]) < 256,
{
    qbits.clear();
    let mut b: usize = 0;
    while b < 256
        invariant
            b <= 256,
            freq@.len() == 256,
            qbits@ == by_rarity(set_bits(sig@, b as int), freq@),
            forall|k: int| 0 <= k < qbits@.len() ==> (#[trigger] qbits@[k]) < 256,
        decreases 256 - b,
    {
        let w: u64 = sig[b / 64];
        if (w >> ((b % 64) as u64)) & 1 == 1 {
            let bit: u16 = b as u16;
            let ghost sorted = qbits@;
            let n = qbits.len();
            let mut p: usize = 0;
            proof {
                assert(sorted.skip(0) =~= sorted);
            }
            while p < n && (freq[qbits[p] as usize] < freq[bit as usize] || (freq[qbits[p] as usize]
                == freq[bit as usize] && qbits[p] < bit))
                invariant
                    n == qbits@.len(),
                    qbits@ == sorted,
                    p <= n,
                    bit < 256,
                    freq@.len() == 256,
                    forall|k: int| 0 <= k < qbits@.len() ==> (#[trigger] qbits@[k]) < 256,
                    rank_pos(sorted, bit, freq@) == p + rank_pos(sorted.skip(p as int), bit, freq@),
                decreases n - p,
            {
                proof {
                    let cur = sorted.skip(p as int);
                    assert(cur[0] == sorted[p as int]);
                    assert(cur.drop_first() =~= sorted.skip(p + 1));
                }
                p = p + 1;
            }
            proof {
                let cur = sorted.skip(p as int);
                if p < n {
                    assert(cur[0] == sorted[p as int]);
                }
                let grown = set_bits(sig@, b + 1);
                assert(grown.drop_last() =~= set_bits(sig@, b as int));
                assert(grown.last() == bit);
            }
            qbits.insert(p, bit);
        }
        b = b + 1;
    }
}

/// Normalizes the query text into `qbuf` and splits it into tokens.
pub fn query_tokens(text: &[u8], qbuf: &mut Vec<u8>) -> (toks: Vec<Vec<u8>>)
    ensures
        final(qbuf)@ == normalized(text@),
        views(toks@) == tokens(normalized(text@)),
        forall|k: int| 0 <= k < toks@.len() ==> 1 <= (#[trigger] toks@[k])@.len(),
{
    normalize_ascii_inplace(text, qbuf);
    tokenize_bytes(qbuf.as_slice())
}

/// Positions in `toks` of the tokens, besides the last, that are looked up
/// as exact matches.
pub fn pick_others(toks: &Vec<Vec<u8>>) -> (idx: Vec<usize>)
    ensures
        idx@.len() == other_tokens(views(toks@)).len(),
        idx@.len() <= MAX_OTHER_TOKENS,
        forall|i: int|
            0 <= i < idx@.len() ==> (#[trigger] idx@[i]) < toks@.len() && toks@[idx@[i] as int]@
                == other_tokens(views(toks@))[i],
{
    let mut idx: Vec<usize> = Vec::new();
    let n = toks.len();
    if n <= 1 {
        return idx;
    }
    let ghost all = views(toks@);
    let ghost init = all.drop_last();
    let mut j: usize = 0;
    proof {
        assert(init.take(0) =~= Seq::<Seq<u8>>::empty());
    }
    while j < n - 1
        invariant
            n == toks@.len(),
            n > 1,
            j <= n - 1,
            all == views(toks@),
            init == all.drop_last(),
            idx@.len() <= MAX_OTHER_TOKENS,
            idx@.len() == head(short_tokens(init.take(j as int)), MAX_OTHER_TOKENS as int).len(),
            forall|i: int|
                0 <= i < idx@.len() ==> (#[trigger] idx@[i]) < toks@.len() && toks@[idx@[i] as int]@
                    == head(short_tokens(init.take(j as int)), MAX_OTHER_TOKENS as int)[i],
        decreases n - 1 - j,
    {
        proof {
            let cur = init.take(j + 1);
            assert(cur.drop_last() =~= init.take(j as int));
            assert(cur.last() == all[j as int]);
            assert(all[j as int] == toks@[j as int]@);
        }
        if toks[j].len() <= SHORT_TOKEN_LEN && idx.len() < MAX_OTHER_TOKENS {
            idx.push(j);
        }
        j = j + 1;
    }
    proof {
        assert(init.take(n - 1) =~= init);
    }
    idx
}

impl Segment {
    /// The must-list of a query, or `None` when it is empty because the
    /// query has no last token.
    pub fn must_of<'a>(&'a self, toks: &Vec<Vec<u8>>) -> (must: Option<&'a Vec<u32>>)
        requires
            self.wf(),
            forall|k: int| 0 <= k < toks@.len() ==> 1 <= (#[trigger] toks@[k])@.len(),
        ensures
            match must {
                Some(list) => list@ == self.must_list(views(toks@)),
                None => self.must_list(views(toks@)) == Seq::<u32>::empty(),
            },
    {
        let n = toks.len();
        if n == 0 {
            return None;
        }
        let l = &toks[n - 1];
        proof {
            assert(views(toks@).last() == l@);
        }
        if l.len() >= 3 {
            match pref3_index(l[0], l[1], l[2]) {
                Some(idx) => {
                    return Some(&self.pref3[idx]);
                },
                None => {},
            }
        }
        Some(&self.pref1[l[0] as usize])
    }

    /// Fills `cand` with the candidate rows of a query.
    pub fn fill_candidates(
        &self,
        qbits: &Vec<u16>,
        must: Option<&Vec<u32>>,
        cand: &mut Vec<u32>,
        tmp: &mut Vec<u32>,
    )
        requires
            self.wf(),
            forall|k: int| 0 <= k < qbits@.len() ==> (#[trigger] qbits@[k]) < 256,
            match must {
                Some(list) => ascending(list@) && forall|k: int|
                    0 <= k < list@.len() ==> (#[trigger] list@[k]) < self.rows().len(),
                None => true,
            },
        ensures
            final(cand)@ == self.candidates_from(
                match must {
                    Some(list) => list@,
                    None => Seq::<u32>::empty(),
                },
                qbits@,
            ),
            is_candidate_list(final(cand)@, self.rows().len() as int),
            final(tmp)@ == Seq::<u32>::empty(),
    {
        let ghost m: Seq<u32> = match must {
            Some(list) => list@,
            None => Seq::<u32>::empty(),
        };
        let ghost rows = self.rows().len() as int;
        cand.clear();
        let mut seeded_by_must = false;
        match must {
            Some(list) => {
                if list.len() > 0 {
                    extend_cap(cand, list.as_slice(), INTERSECT_CAP);
                    seeded_by_must = true;
                    proof {
                        lemma_head_ascending(list@, INTERSECT_CAP as int);
                        assert(cand@ =~= head(list@, INTERSECT_CAP as int));
                    }
                }
            },
            None => {},
        }
        if !seeded_by_must && qbits.len() > 0 {
            let rare0 = qbits[0] as usize;
            extend_cap(cand, self.bit_postings[rare0].as_slice(), INTERSECT_CAP);
            proof {
                let list = self.bit_postings@[rare0 as int]@;
                lemma_head_ascending(list, INTERSECT_CAP as int);
                assert(cand@ =~= head(list, INTERSECT_CAP as int));
            }
        }
        assert(cand@ == self.seed(m, qbits@));
        assert(is_candidate_list(cand@, rows));
        let grams = qbits.len();
        let extra: usize = if grams < 5 {
            1
        } else if grams < 10 {
            2
        } else {
            3
        };
        let to: usize = if 1 + extra < grams {
            1 + extra
        } else {
            grams
        };
        let ghost seeded = cand@;
        let mut i: usize = 1;
        while i < to
            invariant
                self.wf(),
                1 <= i,
                to <= qbits@.len(),
                rows == self.rows().len(),
                forall|k: int| 0 <= k < qbits@.len() ==> (#[trigger] qbits@[k]) < 256,
                is_candidate_list(cand@, rows),
                self.prune(seeded, qbits@, 1, to as int) == self.prune(
                    cand@,
                    qbits@,
                    i as int,
                    to as int,
                ),
            decreases to - i,
        {
            let bit = qbits[i] as usize;
            if cand.len() > 0 && self.bit_postings[bit].len() > 0 {
                let ghost before = cand@;
                intersect_in_place_bounded_tmp(
                    cand,
                    self.bit_postings[bit].as_slice(),
                    INTERSECT_CAP,
                    tmp,
                );
                proof {
                    lemma_intersect_candidates(
                        before,
                        self.bit_postings@[bit as int]@,
                        rows,
                    );
                }
            }
            i = i + 1;
        }
        match must {
            Some(list) => {
                if list.len() > 0 {
                    let ghost before = cand@;
                    intersect_in_place_bounded_tmp(cand, list.as_slice(), INTERSECT_CAP, tmp);
                    proof {
                        lemma_intersect_candidates(before, list@, rows);
                    }
                }
            },
            None => {},
        }
        tmp.clear();
    }
}

/// Every query bit is a position of the signature.
pub proof fn lemma_query_bits_range(sig: Seq<u64>, freq: Seq<u32>)
    ensures
        forall|k: int|
            0 <= k < by_rarity(set_bits(sig, 256), freq).len() ==> (#[trigger] by_rarity(
                set_bits(sig, 256),
                freq,
            )[k]) < 256,
{
    let bits = set_bits(sig, 256);
    lemma_set_bits_range(sig, 256);
    lemma_by_rarity_sorted(bits, freq);
    let out = by_rarity(bits, freq);
    assert forall|k: int| 0 <= k < out.len() implies (#[trigger] out[k]) < 256 by {
        assert(bits.contains(out[k]));
        let m = choose|m: int| 0 <= m < bits.len() && bits[m] == out[k];
        assert(bits[m] < 256);
    }
}

proof fn lemma_set_bits_range(sig: Seq<u64>, upto: int)
    requires
        0 <= upto <= 65536,
    ensures
        forall|k: int|
            0 <= k < set_bits(sig, upto).len() ==> (#[trigger] set_bits(sig, upto)[k]) < upto,
    decreases upto,
{
    if upto > 0 {
        lemma_set_bits_range(sig, upto - 1);
        let prev = set_bits(sig, upto - 1);
        let cur = set_bits(sig, upto);
        assert forall|k: int| 0 <= k < cur.len() implies (#[trigger] cur[k]) < upto by {
            if k < prev.len() {
                assert(cur[k] == prev[k]);
            }
        }
    }
}

/// Segments with the same bit posting lists prune alike.
pub proof fn lemma_prune_same(
    a: &Segment,
    b: &Segment,
    cand: Seq<u32>,
    qbits: Seq<u16>,
    from: int,
    to: int,
)
    requires
        0 <= from,
        to <= qbits.len(),
        forall|k: int| 0 <= k < qbits.len() ==> (#[trigger] qbits[k]) < 256,
        forall|i: int| 0 <= i < 256 ==> (#[trigger] a.bit_postings@[i])@ == b.bit_postings@[i]@,
    ensures
        a.prune(cand, qbits, from, to) == b.prune(cand, qbits, from, to),
    decreases to - from,
{
    if from < to {
        let bit = qbits[from];
        assert(a.bit_postings@[bit as int]@ == b.bit_postings@[bit as int]@);
        assert(a.prune_step(cand, bit) == b.prune_step(cand, bit));
        lemma_prune_same(a, b, a.prune_step(cand, bit), qbits, from + 1, to);
    }
}

/// When there is a must-list, every candidate is on it.
pub proof fn lemma_candidates_on_must(seg: &Segment, must: Seq<u32>, qbits: Seq<u16>)
    requires
        must.len() > 0,
    ensures
        forall|k: int|
            0 <= k < seg.candidates_from(must, qbits).len() ==> must.contains(
                #[trigger] seg.candidates_from(must, qbits)[k],
            ),
{
    let seeded = seg.seed(must, qbits);
    let want = 1 + extra_bits(qbits.len() as int);
    let to = if want < qbits.len() {
        want
    } else {
        qbits.len() as int
    };
    let pruned = seg.prune(seeded, qbits, 1, to);
    let c = seg.candidates_from(must, qbits);
    lemma_common_members(pruned, must);
    lemma_head_ascending(common(pruned, must), INTERSECT_CAP as int);
    assert forall|k: int| 0 <= k < c.len() implies must.contains(#[trigger] c[k]) by {
        let m = common(pruned, must);
        assert(c[k] == m[k]);
        assert(m.contains(m[k]));
    }
}

/// Intersecting a candidate list with an ascending list gives a candidate
/// list.
pub proof fn lemma_intersect_candidates(c: Seq<u32>, b: Seq<u32>, rows: int)
    requires
        is_candidate_list(c, rows),
    ensures
        is_candidate_list(intersect_bounded(c, b, INTERSECT_CAP as int), rows),
        intersect_bounded(c, b, INTERSECT_CAP as int) == common(c, b),
        forall|x: u32|
            intersect_bounded(c, b, INTERSECT_CAP as int).contains(x) ==> c.contains(x)
                && b.contains(x),
{
    let r = common(c, b);
    lemma_common_members(c, b);
    lemma_head_ascending(r, INTERSECT_CAP as int);
    assert(intersect_bounded(c, b, INTERSECT_CAP as int) == r);
    assert forall|k: int| 0 <= k < r.len() implies (#[trigger] r[k]) < rows by {
        assert(r.contains(r[k]));
        assert(c.contains(r[k]));
        let m = choose|m: int| 0 <= m < c.len() && c[m] == r[k];
    }
}

} // verus!
