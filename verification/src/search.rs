//! Searching a segment and merging the results of all segments.
//!
//! A query is answered per segment: candidate rows are gathered, every
//! candidate that shares a bit with the query is described by its
//! `RowFeatures`, the caller's scoring function turns the features into a
//! score key, and the best `k` rows are kept. The view then keeps the best
//! `k` of all segments. Everywhere a higher score is better, then a higher
//! row, then a higher segment.

use vstd::prelude::*;
use crate::accum::Accum;
use crate::index::{
    has_key, is_posting, lemma_posting_members, lemma_posting_unique, row_has, Feature, IndexView,
    Segment,
};
use crate::plan::{
    gather_bits, is_candidate_list, lemma_prune_same, lemma_query_bits_range, other_tokens,
    pick_others, query_tokens, INTERSECT_CAP, SHORT_TOKEN_LEN,
};
use crate::postings::{ascending, contains_sorted, head, lookup_full6};
use crate::seal::{entry_list, lemma_entry_at};
use crate::simd::{
    and_lanes, lemma_overlap_bound, lemma_popcount_lanes_bound, overlap_popcnt, popcnt4,
    popcount_sig,
};
use crate::text::{
    hash_token64, normalized, prefix3, token_hash, tokens, views, PREF3_SIZE,
};
use crate::topk::{keep, keep_fold, lemma_keep_fold_best, lemma_keep_fold_shape};
use crate::wire::{hit_in_view, hit_lt, Hit, Query256, FLAG_FUZZY_JACCARD};

verus! {

/// Score added when a short last query token is a token of the row.
pub const W_EXACT_LAST: u32 = 1000;

/// Score added when another short query token is a token of the row.
pub const W_EXACT_ANY: u32 = 200;

/// Score added per matched prefix character.
pub const W_PREFIX_PER_CHAR: u32 = 30;

/// Most prefix characters that add to the score.
pub const PREFIX_CHARS_MAX: u32 = 10;

/// Buffers that a thread reuses from query to query.
pub struct Scratch {
    /// The query bits, rarest first.
    pub qbits: Vec<u16>,
    /// The candidate rows.
    pub cand: Vec<u32>,
    /// Working space of the intersections.
    pub tmp: Vec<u32>,
    /// The normalized query text.
    pub qbuf: Vec<u8>,
    /// The candidates that share a bit with the query.
    pub scored: Vec<u32>,
    /// The score key of each scored candidate.
    pub scores: Vec<u32>,
}

impl Scratch {
    pub fn new() -> (sc: Scratch)
        ensures
            sc.qbits@.len() == 0,
            sc.cand@.len() == 0,
            sc.tmp@.len() == 0,
            sc.qbuf@.len() == 0,
            sc.scored@.len() == 0,
            sc.scores@.len() == 0,
    {
        Scratch {
            qbits: Vec::with_capacity(64),
            cand: Vec::with_capacity(INTERSECT_CAP),
            tmp: Vec::with_capacity(INTERSECT_CAP),
            qbuf: Vec::with_capacity(256),
            scored: Vec::with_capacity(INTERSECT_CAP),
            scores: Vec::with_capacity(INTERSECT_CAP),
        }
    }
}

/// What a score is computed from, for one candidate row.
#[derive(Clone, Copy, Debug, PartialEq, Eq)]
pub struct RowFeatures {
    /// Number of signature bits that row and query share; never zero.
    pub inter: u32,
    /// Number of bits set in the row's signature.
    pub pop: u16,
    /// Number of bits set in the query signature.
    pub qpop: u32,
    /// Length of the last query token, capped at ten, when the row is on
    /// the must-list; zero otherwise.
    pub prefix_chars: u32,
    /// The last query token is short and is a token of the row.
    pub exact_last: bool,
    /// One of the other short query tokens is a token of the row.
    pub exact_any: bool,
    /// The query asks for the fuzzy bonus.
    pub fuzzy: bool,
}

impl RowFeatures {
    /// What holds of the features of every scored row: row and query share
    /// a bit, no more bits than either has, and the counts are within the
    /// width of a signature.
    pub open spec fn wf(&self) -> bool {
        &&& 1 <= self.inter <= self.pop
        &&& self.inter <= self.qpop
        &&& self.pop <= 256
        &&& self.qpop <= 256
        &&& self.prefix_chars <= PREFIX_CHARS_MAX
    }

    /// The prefix bonus: thirty per matched prefix character.
    pub fn prefix_bonus(&self) -> (w: u32)
        requires
            self.wf(),
        ensures
            w == W_PREFIX_PER_CHAR * self.prefix_chars,
    {
        W_PREFIX_PER_CHAR * self.prefix_chars
    }

    /// The bonus for an exact match of the last token.
    pub fn exact_last_bonus(&self) -> (w: u32)
        ensures
            w == if self.exact_last {
                W_EXACT_LAST
            } else {
                0
            },
    {
        if self.exact_last {
            W_EXACT_LAST
        } else {
            0
        }
    }

    /// The bonus for an exact match of another token; it is given once.
    pub fn exact_any_bonus(&self) -> (w: u32)
        ensures
            w == if self.exact_any {
                W_EXACT_ANY
            } else {
                0
            },
    {
        if self.exact_any {
            W_EXACT_ANY
        } else {
            0
        }
    }

    /// Size of the union of row and query bits: the denominator of the
    /// fuzzy bonus. It is at least one, since row and query share a bit.
    pub fn union_bits(&self) -> (u: u32)
        requires
            self.wf(),
        ensures
            u == self.qpop + self.pop - self.inter,
            u >= 1,
    {
        self.qpop + (self.pop as u32) - self.inter
    }
}

/// The posting lists that a query's tokens select in a segment.
pub struct Plan {
    /// The must-list.
    pub must: Seq<u32>,
    /// Length of the last query token, zero when there is none.
    pub last_len: int,
    /// Rows with a token equal in hash to the last query token, when that
    /// one is short.
    pub last_list: Seq<u32>,
    /// The same for each of the other short query tokens.
    pub other_lists: Seq<Seq<u32>>,
}

/// The hits that rows and their scores stand for in segment `seg_id`.
pub open spec fn row_hits(seg_id: u16, rows: Seq<u32>, scores: Seq<u32>) -> Seq<Hit> {
    Seq::new(rows.len(), |i: int| Hit { seg: seg_id, row: rows[i], score: scores[i] })
}

/// The hits a segment reports: of the scored rows, as many as the
/// accumulator has room for are offered in order, and the best `k` in the
/// order of hits are kept, ascending. Of rows with the same score the
/// higher rows are the better.
pub open spec fn ranked(seg_id: u16, rows: Seq<u32>, scores: Seq<u32>, k: int, cap: int) -> Seq<
    Hit,
> {
    keep_fold(row_hits(seg_id, head(rows, cap), scores), k)
}

/// Every reported hit is of segment `seg_id` and of one of the rows.
pub proof fn lemma_ranked_rows(seg_id: u16, rows: Seq<u32>, scores: Seq<u32>, k: int, cap: int)
    requires
        k >= 0,
    ensures
        forall|j: int|
            0 <= j < ranked(seg_id, rows, scores, k, cap).len() ==> (#[trigger] ranked(
                seg_id,
                rows,
                scores,
                k,
                cap,
            )[j]).seg == seg_id && rows.contains(ranked(seg_id, rows, scores, k, cap)[j].row),
        ranked(seg_id, rows, scores, k, cap).len() <= k,
{
    let taken = head(rows, cap);
    let hits = row_hits(seg_id, taken, scores);
    let kept = ranked(seg_id, rows, scores, k, cap);
    lemma_keep_fold_shape(hits, k);
    if k >= 1 {
        lemma_keep_fold_best(hits, k);
        assert forall|j: int| 0 <= j < kept.len() implies (#[trigger] kept[j]).seg == seg_id
            && rows.contains(kept[j].row) by {
            assert(hits.contains(kept[j]));
            let m = choose|m: int| 0 <= m < hits.len() && hits[m] == kept[j];
            assert(taken[m] == rows[m]);
        }
    }
}

/// With `k` at least one, every row that was offered is reported or is not
/// after the worst reported hit: its score is lower, or the same with a
/// lower row.
pub proof fn lemma_ranked_best(
    seg_id: u16,
    rows: Seq<u32>,
    scores: Seq<u32>,
    k: int,
    cap: int,
    i: int,
)
    requires
        k >= 1,
        0 <= i < head(rows, cap).len(),
    ensures
        ({
            let kept = ranked(seg_id, rows, scores, k, cap);
            let h = Hit { seg: seg_id, row: rows[i], score: scores[i] };
            kept.contains(h) || (kept.len() == k && !hit_lt(kept[0], h))
        }),
{
    let taken = head(rows, cap);
    let hits = row_hits(seg_id, taken, scores);
    lemma_keep_fold_best(hits, k);
    assert(hits[i] == Hit { seg: seg_id, row: rows[i], score: scores[i] });
}

/// `scores` holds one possible result of `score` for each of `feats`.
pub open spec fn outcome<F: Fn(RowFeatures) -> u32>(
    score: &F,
    feats: Seq<RowFeatures>,
    scores: Seq<u32>,
) -> bool {
    &&& scores.len() == feats.len()
    &&& forall|i: int| 0 <= i < feats.len() ==> score.ensures((feats[i],), #[trigger] scores[i])
}

impl Segment {
    /// Rows with a token of at most six bytes whose hash is that of `tok`.
    pub open spec fn exact_list(&self, tok: Seq<u8>) -> Seq<u32> {
        entry_list(self.full6@, token_hash(tok))
    }

    /// The posting lists selected by the query tokens `toks`.
    pub open spec fn plan(&self, toks: Seq<Seq<u8>>) -> Plan {
        Plan {
            must: self.must_list(toks),
            last_len: if toks.len() > 0 {
                toks.last().len() as int
            } else {
                0
            },
            last_list: if toks.len() > 0 && toks.last().len() <= SHORT_TOKEN_LEN {
                self.exact_list(toks.last())
            } else {
                Seq::empty()
            },
            other_lists: Seq::new(
                other_tokens(toks).len(),
                |i: int| self.exact_list(other_tokens(toks)[i]),
            ),
        }
    }

    /// Number of signature bits that `row` shares with the query.
    pub open spec fn overlap(&self, qsig: Seq<u64>, row: u32) -> nat {
        popcount_sig(and_lanes(self.rows()[row as int].sig, qsig))
    }

    /// What the score of `row` is computed from.
    pub open spec fn features(&self, qsig: Seq<u64>, fuzzy: bool, plan: Plan, row: u32)
        -> RowFeatures {
        RowFeatures {
            inter: self.overlap(qsig, row) as u32,
            pop: self.pop@[row as int],
            qpop: popcount_sig(qsig) as u32,
            prefix_chars: if plan.must.contains(row) {
                if plan.last_len < PREFIX_CHARS_MAX {
                    plan.last_len as u32
                } else {
                    PREFIX_CHARS_MAX
                }
            } else {
                0
            },
            exact_last: plan.last_list.contains(row),
            exact_any: exists|i: int|
                0 <= i < plan.other_lists.len() && (#[trigger] plan.other_lists[i]).contains(row),
            fuzzy,
        }
    }

    /// The candidates that share a bit with the query, in order.
    pub open spec fn sharing(&self, qsig: Seq<u64>, cands: Seq<u32>) -> Seq<u32>
        decreases cands.len(),
    {
        if cands.len() == 0 {
            Seq::empty()
        } else {
            let r = self.sharing(qsig, cands.drop_last());
            if self.overlap(qsig, cands.last()) > 0 {
                r.push(cands.last())
            } else {
                r
            }
        }
    }

    /// The rows of this segment that are scored for a query.
    pub open spec fn scored_rows(&self, q: Query256, text: Seq<u8>) -> Seq<u32> {
        self.sharing(q.sig@, self.candidates(q.sig@, text))
    }

    /// The features of the scored rows, in order.
    pub open spec fn scored_features(&self, q: Query256, text: Seq<u8>) -> Seq<RowFeatures> {
        let rows = self.scored_rows(q, text);
        let plan = self.plan(tokens(normalized(text)));
        Seq::new(
            rows.len(),
            |i: int| self.features(q.sig@, q.flags & FLAG_FUZZY_JACCARD != 0, plan, rows[i]),
        )
    }

    /// The features of a row that shares a bit with the query are well
    /// formed.
    pub proof fn lemma_features_wf(&self, qsig: Seq<u64>, fuzzy: bool, plan: Plan, row: u32)
        requires
            self.wf(),
            qsig.len() == 4,
            plan.last_len >= 0,
            row < self.rows().len(),
            self.overlap(qsig, row) > 0,
        ensures
            self.features(qsig, fuzzy, plan, row).wf(),
    {
        let sig = self.rows()[row as int].sig;
        lemma_overlap_bound(sig, qsig, 4);
        lemma_popcount_lanes_bound(sig, 4);
        lemma_popcount_lanes_bound(qsig, 4);
        assert(self.pop@[row as int] == popcount_sig(sig));
    }

    /// The sharing candidates are candidates: ascending rows of the
    /// segment, no more than there were.
    pub proof fn lemma_sharing_shape(&self, qsig: Seq<u64>, cands: Seq<u32>)
        requires
            is_candidate_list(cands, self.rows().len() as int),
        ensures
            is_candidate_list(self.sharing(qsig, cands), self.rows().len() as int),
            self.sharing(qsig, cands).len() <= cands.len(),
            forall|k: int|
                0 <= k < self.sharing(qsig, cands).len() ==> self.overlap(
                    qsig,
                    #[trigger] self.sharing(qsig, cands)[k],
                ) > 0,
            cands.len() > 0 ==> forall|k: int|
                0 <= k < self.sharing(qsig, cands).len() ==> (#[trigger] self.sharing(
                    qsig,
                    cands,
                )[k]) <= cands.last(),
        decreases cands.len(),
    {
        if cands.len() > 0 {
            let init = cands.drop_last();
            assert(is_candidate_list(init, self.rows().len() as int));
            self.lemma_sharing_shape(qsig, init);
            let r = self.sharing(qsig, init);
            let out = self.sharing(qsig, cands);
            if init.len() > 0 {
                assert(init.last() == cands[cands.len() - 2]);
                assert(cands[cands.len() - 2] < cands[cands.len() - 1]);
            }
            assert forall|i: int, j: int| 0 <= i < j < out.len() implies out[i] < out[j] by {
                if j < r.len() {
                    assert(r[i] < r[j]);
                } else {
                    assert(out[i] == r[i]);
                    assert(r[i] <= init.last());
                }
            }
        }
    }

    /// Looks up the posting list of a query token; `None` when the
    /// segment has no row with such a token.
    fn exact_slot(&self, tok: &Vec<u8>) -> (slot: Option<usize>)
        requires
            self.wf(),
        ensures
            match slot {
                Some(i) => i < self.full6@.len() && self.full6@[i as int].1@ == self.exact_list(
                    tok@,
                ),
                None => self.exact_list(tok@) == Seq::<u32>::empty(),
            },
    {
        let key = hash_token64(tok.as_slice());
        let slot = lookup_full6(&self.full6, key);
        proof {
            match slot {
                Some(i) => {
                    lemma_entry_at(self.full6@, i as int);
                },
                None => {
                    assert(!has_key(self.full6@, key));
                },
            }
        }
        slot
    }

    /// Whether `row` is on the list in `slot`.
    fn on_list(&self, slot: Option<usize>, row: u32) -> (r: bool)
        requires
            self.wf(),
            match slot {
                Some(i) => i < self.full6@.len(),
                None => true,
            },
        ensures
            r == match slot {
                Some(i) => self.full6@[i as int].1@.contains(row),
                None => false,
            },
    {
        match slot {
            Some(i) => {
                assert(self.full6@[i as int].1@.len() > 0);
                contains_sorted(self.full6[i].1.as_slice(), row)
            },
            None => false,
        }
    }

    /// Searches this segment.
    ///
    /// Appends to `out` the best `q.k` rows, ascending in the order of
    /// hits: by score, and by row where scores are equal. The rows
    /// that are scored are the candidates that share a bit with the
    /// query; `score` is called once for each, with its features. What it
    /// returned is left in `sc.scores`, beside the rows in `sc.scored`.
    pub fn search_into_v2<F: Fn(RowFeatures) -> u32>(
        &self,
        seg_id: u16,
        q: Query256,
        text: &[u8],
        score: &F,
        sc: &mut Scratch,
        acc: &mut Accum,
        out: &mut Vec<Hit>,
    )
        requires
            self.wf(),
            old(acc).wf(),
            forall|f: RowFeatures| f.wf() ==> score.requires((f,)),
        ensures
            final(acc).wf(),
            final(acc).capacity() == old(acc).capacity(),
            final(sc).qbuf@ == normalized(text@),
            final(sc).qbits@ == self.query_bits(q.sig@),
            final(sc).cand@ == self.candidates(q.sig@, text@),
            final(sc).cand@.len() <= INTERSECT_CAP,
            final(sc).tmp@ == Seq::<u32>::empty(),
            final(sc).scored@ == self.scored_rows(q, text@),
            outcome(score, self.scored_features(q, text@), final(sc).scores@),
            final(out)@ == old(out)@ + ranked(
                seg_id,
                self.scored_rows(q, text@),
                final(sc).scores@,
                q.k as int,
                old(acc).capacity() as int,
            ),
            forall|j: int|
                old(out)@.len() <= j < final(out)@.len() ==> (#[trigger] final(out)@[j]).seg
                    == seg_id && final(out)@[j].row < self.rows().len(),
            final(out)@.len() <= old(out)@.len() + q.k,
    {
        let ghost rows = self.rows();
        let ghost toks_v = tokens(normalized(text@));
        let ghost plan = self.plan(toks_v);
        let ghost fuzzy_v = q.flags & FLAG_FUZZY_JACCARD != 0;
        let toks = query_tokens(text, &mut sc.qbuf);
        let others = pick_others(&toks);
        gather_bits(&q.sig, &self.bit_freq, &mut sc.qbits);
        let must = self.must_of(&toks);
        proof {
            match must {
                Some(list) => {
                    let l = toks_v.last();
                    if l.len() >= 3 && prefix3(l[0], l[1], l[2]) is Some {
                        let i = prefix3(l[0], l[1], l[2])->0;
                        assert(is_posting(
                            self.pref3@[i]@,
                            rows,
                            Feature::Three(i as usize),
                        ));
                    } else {
                        let c = l[0] as int;
                        assert(is_posting(
                            self.pref1@[c]@,
                            rows,
                            Feature::First(c as u8),
                        ));
                    }
                },
                None => {},
            }
        }
        self.fill_candidates(&sc.qbits, must, &mut sc.cand, &mut sc.tmp);

        let n_toks = toks.len();
        let last_len: usize = if n_toks > 0 {
            toks[n_toks - 1].len()
        } else {
            0
        };
        let prefix_chars: u32 = if last_len < 10 {
            last_len as u32
        } else {
            PREFIX_CHARS_MAX
        };
        let mut last_slot: Option<usize> = None;
        if n_toks > 0 && last_len <= SHORT_TOKEN_LEN {
            last_slot = self.exact_slot(&toks[n_toks - 1]);
        }
        let mut other_slots: Vec<Option<usize>> = Vec::new();
        let mut oi: usize = 0;
        while oi < others.len()
            invariant
                self.wf(),
                oi <= others@.len(),
                other_slots@.len() == oi,
                others@.len() == other_tokens(views(toks@)).len(),
                forall|i: int|
                    0 <= i < others@.len() ==> (#[trigger] others@[i]) < toks@.len()
                        && toks@[others@[i] as int]@ == other_tokens(views(toks@))[i],
                forall|i: int|
                    0 <= i < oi ==> match #[trigger] other_slots@[i] {
                        Some(s) => s < self.full6@.len() && self.full6@[s as int].1@
                            == self.exact_list(other_tokens(views(toks@))[i]),
                        None => self.exact_list(other_tokens(views(toks@))[i]) == Seq::<
                            u32,
                        >::empty(),
                    },
            decreases others@.len() - oi,
        {
            let slot = self.exact_slot(&toks[others[oi]]);
            other_slots.push(slot);
            oi = oi + 1;
        }
        proof {
            assert(views(toks@) == toks_v);
            if n_toks > 0 {
                assert(toks_v.last() == toks@[n_toks - 1]@);
            }
            assert(plan.other_lists.len() == other_slots@.len());
        }

        let qpop = popcnt4(&q.sig);
        let fuzzy = (q.flags & FLAG_FUZZY_JACCARD) != 0;
        sc.scored.clear();
        sc.scores.clear();
        let n = sc.cand.len();
        let ghost cands = sc.cand@;
        let mut i: usize = 0;
        proof {
            assert(cands.take(0) =~= Seq::<u32>::empty());
        }
        while i < n
            invariant
                self.wf(),
                rows == self.rows(),
                n == cands.len(),
                cands == sc.cand@,
                i <= n,
                is_candidate_list(cands, rows.len() as int),
                qpop == popcount_sig(q.sig@),
                fuzzy == fuzzy_v,
                plan == self.plan(toks_v),
                prefix_chars == (if plan.last_len < PREFIX_CHARS_MAX {
                    plan.last_len as u32
                } else {
                    PREFIX_CHARS_MAX
                }),
                match must {
                    Some(list) => list@ == plan.must && ascending(list@),
                    None => plan.must == Seq::<u32>::empty(),
                },
                match last_slot {
                    Some(s) => s < self.full6@.len() && self.full6@[s as int].1@ == plan.last_list,
                    None => plan.last_list == Seq::<u32>::empty(),
                },
                other_slots@.len() == plan.other_lists.len(),
                forall|j: int|
                    0 <= j < other_slots@.len() ==> match #[trigger] other_slots@[j] {
                        Some(s) => s < self.full6@.len() && self.full6@[s as int].1@
                            == plan.other_lists[j],
                        None => plan.other_lists[j] == Seq::<u32>::empty(),
                    },
                forall|f: RowFeatures| f.wf() ==> score.requires((f,)),
                sc.scored@ == self.sharing(q.sig@, cands.take(i as int)),
                sc.scores@.len() == sc.scored@.len(),
                forall|j: int|
                    0 <= j < sc.scored@.len() ==> score.ensures(
                        (self.features(q.sig@, fuzzy_v, plan, sc.scored@[j]),),
                        #[trigger] sc.scores@[j],
                    ),
                sc.qbuf@ == normalized(text@),
                sc.qbits@ == self.query_bits(q.sig@),
                sc.tmp@ == Seq::<u32>::empty(),
            decreases n - i,
        {
            let row = sc.cand[i];
            let r = row as usize;
            let sig: [u64; 4] = [self.s0[r], self.s1[r], self.s2[r], self.s3[r]];
            let inter = overlap_popcnt(&sig, &q.sig);
            proof {
                let cur = cands.take(i + 1);
                assert(cur.drop_last() =~= cands.take(i as int));
                assert(cur.last() == row);
                assert(sig@ =~= rows[r as int].sig);
            }
            if inter > 0 {
                let on_must = match must {
                    Some(list) => contains_sorted(list.as_slice(), row),
                    None => false,
                };
                let exact_last = self.on_list(last_slot, row);
                let mut exact_any = false;
                let mut j: usize = 0;
                while j < other_slots.len()
                    invariant
                        self.wf(),
                        j <= other_slots@.len(),
                        other_slots@.len() == plan.other_lists.len(),
                        forall|x: int|
                            0 <= x < other_slots@.len() ==> match #[trigger] other_slots@[x] {
                                Some(s) => s < self.full6@.len() && self.full6@[s as int].1@
                                    == plan.other_lists[x],
                                None => plan.other_lists[x] == Seq::<u32>::empty(),
                            },
                        exact_any == (exists|x: int|
                            0 <= x < j && (#[trigger] plan.other_lists[x]).contains(row)),
                    decreases other_slots@.len() - j,
                {
                    let hit = self.on_list(other_slots[j], row);
                    proof {
                        let s = other_slots@[j as int];
                        if hit {
                            assert(plan.other_lists[j as int].contains(row));
                        } else {
                            assert(!plan.other_lists[j as int].contains(row));
                        }
                    }
                    if hit {
                        exact_any = true;
                    }
                    j = j + 1;
                }
                let f = RowFeatures {
                    inter,
                    pop: self.pop[r],
                    qpop,
                    prefix_chars: if on_must {
                        prefix_chars
                    } else {
                        0
                    },
                    exact_last,
                    exact_any,
                    fuzzy,
                };
                proof {
                    assert(f == self.features(q.sig@, fuzzy_v, plan, row));
                    lemma_overlap_bound(sig@, q.sig@, 4);
                    lemma_popcount_lanes_bound(sig@, 4);
                    lemma_popcount_lanes_bound(q.sig@, 4);
                    assert(self.pop@[r as int] == popcount_sig(rows[r as int].sig));
                    assert(f.wf());
                }
                let key = score(f);
                sc.scored.push(row);
                sc.scores.push(key);
            }
            i = i + 1;
        }
        proof {
            assert(cands.take(n as int) =~= cands);
            self.lemma_sharing_shape(q.sig@, cands);
            assert(sc.scored@ == self.scored_rows(q, text@));
            let feats = self.scored_features(q, text@);
            assert forall|j: int| 0 <= j < feats.len() implies score.ensures(
                (feats[j],),
                #[trigger] sc.scores@[j],
            ) by {
                assert(feats[j] == self.features(q.sig@, fuzzy_v, plan, sc.scored@[j]));
            }
        }
        let ghost start = out@;
        let ghost cap = acc.capacity() as int;
        rank_rows(seg_id, &sc.scored, &sc.scores, q.k as usize, acc, out);
        proof {
            let kept = ranked(seg_id, sc.scored@, sc.scores@, q.k as int, cap);
            lemma_ranked_rows(seg_id, sc.scored@, sc.scores@, q.k as int, cap);
            assert forall|j: int| start.len() <= j < out@.len() implies (#[trigger] out@[j]).seg
                == seg_id && out@[j].row < self.rows().len() by {
                let h = kept[j - start.len()];
                assert(out@[j] == h);
                assert(sc.scored@.contains(h.row));
                let m = choose|m: int| 0 <= m < sc.scored@.len() && sc.scored@[m] == h.row;
                assert(sc.scored@[m] < self.rows().len());
            }
        }
    }
}

/// Every row that shares a bit with the query is one of the candidates it
/// was taken from, and does share a bit.
pub proof fn lemma_sharing_members(seg: &Segment, qsig: Seq<u64>, cands: Seq<u32>)
    ensures
        forall|k: int|
            0 <= k < seg.sharing(qsig, cands).len() ==> seg.overlap(
                qsig,
                #[trigger] seg.sharing(qsig, cands)[k],
            ) > 0 && cands.contains(seg.sharing(qsig, cands)[k]),
    decreases cands.len(),
{
    if cands.len() > 0 {
        let init = cands.drop_last();
        lemma_sharing_members(seg, qsig, init);
        let r = seg.sharing(qsig, init);
        let out = seg.sharing(qsig, cands);
        assert forall|k: int| 0 <= k < out.len() implies seg.overlap(qsig, #[trigger] out[k]) > 0
            && cands.contains(out[k]) by {
            if k < r.len() {
                assert(out[k] == r[k]);
                let m = choose|m: int| 0 <= m < init.len() && init[m] == r[k];
                assert(cands[m] == r[k]);
            } else {
                assert(cands[cands.len() - 1] == out[k]);
            }
        }
    }
}

/// Every hit that a segment reports is of a candidate row that shares a
/// signature bit with the query.
pub proof fn lemma_reported_rows(
    seg: &Segment,
    seg_id: u16,
    q: Query256,
    text: Seq<u8>,
    scores: Seq<u32>,
    cap: int,
)
    ensures
        forall|j: int|
            0 <= j < ranked(seg_id, seg.scored_rows(q, text), scores, q.k as int, cap).len() ==> {
                let h = #[trigger] ranked(
                    seg_id,
                    seg.scored_rows(q, text),
                    scores,
                    q.k as int,
                    cap,
                )[j];
                &&& h.seg == seg_id
                &&& seg.overlap(q.sig@, h.row) > 0
                &&& seg.candidates(q.sig@, text).contains(h.row)
            },
{
    let rows = seg.scored_rows(q, text);
    let cands = seg.candidates(q.sig@, text);
    let kept = ranked(seg_id, rows, scores, q.k as int, cap);
    lemma_ranked_rows(seg_id, rows, scores, q.k as int, cap);
    lemma_sharing_members(seg, q.sig@, cands);
    assert forall|j: int| 0 <= j < kept.len() implies {
        let h = #[trigger] kept[j];
        &&& h.seg == seg_id
        &&& seg.overlap(q.sig@, h.row) > 0
        &&& cands.contains(h.row)
    } by {
        let h = kept[j];
        assert(rows.contains(h.row));
        let m = choose|m: int| 0 <= m < rows.len() && rows[m] == h.row;
        assert(seg.overlap(q.sig@, rows[m]) > 0);
    }
}

/// The feature that rows on the must-list of a last query token `l` have:
/// a token with the three-character prefix of `l`, or with its first byte
/// when `l` has no such prefix.
pub open spec fn prefix_feature(l: Seq<u8>) -> Feature {
    if l.len() >= 3 && prefix3(l[0], l[1], l[2]) is Some {
        Feature::Three(prefix3(l[0], l[1], l[2])->0 as usize)
    } else {
        Feature::First(l[0])
    }
}

/// What a row's features say of its tokens. In a well-formed segment a row
/// is on the must-list exactly when one of its tokens starts as the last
/// query token does, it has the exact-last feature exactly when the last
/// query token is short and one of its tokens has the same hash, and the
/// exact-any feature exactly when that holds of one of the other short query
/// tokens.
pub proof fn lemma_features_mean_tokens(
    seg: &Segment,
    qsig: Seq<u64>,
    fuzzy: bool,
    toks: Seq<Seq<u8>>,
    row: u32,
)
    requires
        seg.wf(),
        row < seg.rows().len(),
        forall|k: int| 0 <= k < toks.len() ==> (#[trigger] toks[k]).len() >= 1,
    ensures
        ({
            let f = seg.features(qsig, fuzzy, seg.plan(toks), row);
            let r = seg.rows()[row as int];
            &&& f.exact_last <==> (toks.len() > 0 && toks.last().len() <= SHORT_TOKEN_LEN
                && row_has(r, Feature::Short(token_hash(toks.last()))))
            &&& f.exact_any <==> (exists|i: int|
                0 <= i < other_tokens(toks).len() && row_has(
                    r,
                    Feature::Short(token_hash(#[trigger] other_tokens(toks)[i])),
                ))
            &&& toks.len() > 0 ==> (seg.must_list(toks).contains(row) <==> row_has(
                r,
                prefix_feature(toks.last()),
            ))
            &&& toks.len() == 0 ==> f.prefix_chars == 0
        }),
{
    let rows = seg.rows();
    let r = rows[row as int];
    let plan = seg.plan(toks);
    let f = seg.features(qsig, fuzzy, plan, row);
    if toks.len() > 0 {
        let l = toks.last();
        assert(l == toks[toks.len() - 1]);
        if l.len() <= SHORT_TOKEN_LEN {
            lemma_exact_list_members(seg, l, row);
        }
        if l.len() >= 3 && prefix3(l[0], l[1], l[2]) is Some {
            let i = prefix3(l[0], l[1], l[2])->0;
            assert(is_posting(seg.pref3@[i]@, rows, Feature::Three(i as usize)));
            lemma_posting_members(seg.pref3@[i]@, rows, Feature::Three(i as usize), row as int);
        } else {
            let c = l[0] as int;
            assert(is_posting(seg.pref1@[c]@, rows, Feature::First(c as u8)));
            lemma_posting_members(seg.pref1@[c]@, rows, Feature::First(c as u8), row as int);
        }
    } else {
        assert(!plan.must.contains(row)) by {
            if plan.must.contains(row) {
                let k = choose|k: int| 0 <= k < plan.must.len() && plan.must[k] == row;
            }
        }
    }
    let others = other_tokens(toks);
    assert forall|i: int| 0 <= i < others.len() implies (plan.other_lists[i].contains(row)
        <==> row_has(r, Feature::Short(token_hash(#[trigger] others[i])))) by {
        lemma_exact_list_members(seg, others[i], row);
    }
    if f.exact_any {
        let i = choose|i: int|
            0 <= i < plan.other_lists.len() && (#[trigger] plan.other_lists[i]).contains(row);
        assert(row_has(r, Feature::Short(token_hash(others[i]))));
    }
    if exists|i: int|
        0 <= i < others.len() && row_has(r, Feature::Short(token_hash(#[trigger] others[i]))) {
        let i = choose|i: int|
            0 <= i < others.len() && row_has(r, Feature::Short(token_hash(#[trigger] others[i])));
        assert(plan.other_lists[i].contains(row));
    }
}

/// A row is on the list of a token's hash exactly when one of its tokens of
/// at most six bytes has that hash.
pub proof fn lemma_exact_list_members(seg: &Segment, tok: Seq<u8>, row: u32)
    requires
        seg.wf(),
        row < seg.rows().len(),
    ensures
        seg.exact_list(tok).contains(row) <==> row_has(
            seg.rows()[row as int],
            Feature::Short(token_hash(tok)),
        ),
{
    let key = token_hash(tok);
    let rows = seg.rows();
    let list = seg.exact_list(tok);
    if has_key(seg.full6@, key) {
        let k = choose|k: int| 0 <= k < seg.full6@.len() && (#[trigger] seg.full6@[k]).0 == key;
        lemma_entry_at(seg.full6@, k);
        let e = seg.full6@[k];
        assert(is_posting(e.1@, rows, Feature::Short(e.0)));
        lemma_posting_members(list, rows, Feature::Short(key), row as int);
    } else {
        assert(list =~= Seq::<u32>::empty());
        if row_has(rows[row as int], Feature::Short(key)) {
            assert(has_key(seg.full6@, key));
        }
        if list.contains(row) {
            let k = choose|k: int| 0 <= k < list.len() && list[k] == row;
        }
    }
}

/// Two well-formed segments with the same rows.
pub open spec fn same_rows(a: &Segment, b: &Segment) -> bool {
    a.wf() && b.wf() && a.rows() == b.rows()
}

/// The rows of a segment fix its posting lists, frequencies and population
/// counts.
pub proof fn lemma_same_rows_same_lists(a: &Segment, b: &Segment)
    requires
        same_rows(a, b),
    ensures
        forall|i: int| 0 <= i < 256 ==> (#[trigger] a.bit_postings@[i])@ == b.bit_postings@[i]@,
        a.bit_freq@ == b.bit_freq@,
        a.pop@ == b.pop@,
        forall|c: int| 0 <= c < 256 ==> (#[trigger] a.pref1@[c])@ == b.pref1@[c]@,
        forall|i: int| 0 <= i < PREF3_SIZE ==> (#[trigger] a.pref3@[i])@ == b.pref3@[i]@,
        forall|tok: Seq<u8>| #[trigger] a.exact_list(tok) == b.exact_list(tok),
{
    let rows = a.rows();
    assert forall|i: int| 0 <= i < 256 implies (#[trigger] a.bit_postings@[i])@
        == b.bit_postings@[i]@ by {
        assert(is_posting(a.bit_postings@[i]@, rows, Feature::Bit(i as u16)));
        assert(is_posting(b.bit_postings@[i]@, rows, Feature::Bit(i as u16)));
        lemma_posting_unique(a.bit_postings@[i]@, b.bit_postings@[i]@, rows, Feature::Bit(i as u16));
    }
    assert forall|c: int| 0 <= c < 256 implies (#[trigger] a.pref1@[c])@ == b.pref1@[c]@ by {
        assert(is_posting(a.pref1@[c]@, rows, Feature::First(c as u8)));
        assert(is_posting(b.pref1@[c]@, rows, Feature::First(c as u8)));
        lemma_posting_unique(a.pref1@[c]@, b.pref1@[c]@, rows, Feature::First(c as u8));
    }
    assert forall|i: int| 0 <= i < PREF3_SIZE implies (#[trigger] a.pref3@[i])@
        == b.pref3@[i]@ by {
        assert(is_posting(a.pref3@[i]@, rows, Feature::Three(i as usize)));
        assert(is_posting(b.pref3@[i]@, rows, Feature::Three(i as usize)));
        lemma_posting_unique(a.pref3@[i]@, b.pref3@[i]@, rows, Feature::Three(i as usize));
    }
    assert(a.bit_freq@ =~= b.bit_freq@);
    assert(a.pop@ =~= b.pop@) by {
        assert(a.rows().len() == a.s0@.len());
        assert(b.rows().len() == b.s0@.len());
        assert(a.pop@.len() == b.pop@.len());
        assert forall|r: int| 0 <= r < a.pop@.len() implies a.pop@[r] == b.pop@[r] by {
            assert(a.pop@[r] == popcount_sig(a.rows()[r].sig));
            assert(b.pop@[r] == popcount_sig(b.rows()[r].sig));
        }
    }
    assert forall|tok: Seq<u8>| #[trigger] a.exact_list(tok) == b.exact_list(tok) by {
        let la = a.exact_list(tok);
        let lb = b.exact_list(tok);
        lemma_exact_list_posting(a, tok);
        lemma_exact_list_posting(b, tok);
        lemma_posting_unique(la, lb, rows, Feature::Short(token_hash(tok)));
    }
}

/// The list of a token's hash is the posting list of that hash, empty when
/// the table has no entry for it.
pub proof fn lemma_exact_list_posting(seg: &Segment, tok: Seq<u8>)
    requires
        seg.wf(),
    ensures
        is_posting(seg.exact_list(tok), seg.rows(), Feature::Short(token_hash(tok))),
{
    let key = token_hash(tok);
    let rows = seg.rows();
    if has_key(seg.full6@, key) {
        let k = choose|k: int| 0 <= k < seg.full6@.len() && (#[trigger] seg.full6@[k]).0 == key;
        lemma_entry_at(seg.full6@, k);
        let e = seg.full6@[k];
        assert(is_posting(e.1@, rows, Feature::Short(e.0)));
    } else {
        let list = seg.exact_list(tok);
        assert(list =~= Seq::<u32>::empty());
        assert forall|r: int|
            0 <= r < rows.len() && row_has(
                #[trigger] rows[r],
                Feature::Short(key),
            ) implies list.contains(r as u32) by {
            assert(has_key(seg.full6@, key));
        }
    }
}

proof fn lemma_same_rows_same_sharing(a: &Segment, b: &Segment, qsig: Seq<u64>, cands: Seq<u32>)
    requires
        a.rows() == b.rows(),
    ensures
        a.sharing(qsig, cands) == b.sharing(qsig, cands),
    decreases cands.len(),
{
    if cands.len() > 0 {
        lemma_same_rows_same_sharing(a, b, qsig, cands.drop_last());
    }
}

/// Segments with the same rows answer a query alike: the same candidates,
/// the same scored rows, and the same features for each of them. A segment
/// rebuilt from the log is searched as the one that was sealed from the
/// same rows.
pub proof fn lemma_same_rows_same_search(a: &Segment, b: &Segment, q: Query256, text: Seq<u8>)
    requires
        same_rows(a, b),
    ensures
        a.query_bits(q.sig@) == b.query_bits(q.sig@),
        a.candidates(q.sig@, text) == b.candidates(q.sig@, text),
        a.scored_rows(q, text) == b.scored_rows(q, text),
        a.scored_features(q, text) == b.scored_features(q, text),
{
    lemma_same_rows_same_lists(a, b);
    let toks = tokens(normalized(text));
    crate::text::lemma_tokens_shape(normalized(text));
    let qbits = a.query_bits(q.sig@);
    lemma_query_bits_range(q.sig@, a.bit_freq@);
    // the must-list
    if toks.len() > 0 {
        let l = toks.last();
        assert(l == toks[toks.len() - 1]);
        assert(l.len() >= 1);
    }
    assert(a.must_list(toks) == b.must_list(toks));
    let must = a.must_list(toks);
    // seeding and pruning
    if qbits.len() > 0 {
        assert(qbits[0] < 256);
    }
    assert(a.seed(must, qbits) == b.seed(must, qbits));
    let want = 1 + crate::plan::extra_bits(qbits.len() as int);
    let to = if want < qbits.len() {
        want
    } else {
        qbits.len() as int
    };
    lemma_prune_same(a, b, a.seed(must, qbits), qbits, 1, to);
    assert(a.candidates_from(must, qbits) == b.candidates_from(must, qbits));
    let cands = a.candidates(q.sig@, text);
    lemma_same_rows_same_sharing(a, b, q.sig@, cands);
    // the features
    let pa = a.plan(toks);
    let pb = b.plan(toks);
    assert(pa.other_lists =~= pb.other_lists);
    assert(pa == pb);
    let rows = a.scored_rows(q, text);
    let fuzzy = q.flags & FLAG_FUZZY_JACCARD != 0;
    assert forall|i: int| 0 <= i < rows.len() implies a.features(q.sig@, fuzzy, pa, rows[i])
        == b.features(q.sig@, fuzzy, pb, rows[i]) by {}
    assert(a.scored_features(q, text) =~= b.scored_features(q, text));
}

/// Runs `f` on the raw text of a query.
pub fn with_query_text<F: FnOnce(&[u8]) -> R, R>(s: &[u8], f: F) -> (r: R)
    requires
        f.requires((s,)),
    ensures
        f.ensures((s,), r),
{
    f(s)
}

/// Reports the best `k` of the given rows: those with the highest scores,
/// and of rows with the same score those with the higher row numbers.
///
/// The rows are touched in the accumulator in order, each with its score;
/// a row that finds the table full is dropped. The touched rows are then
/// offered in order to a list of at most `k` kept hits, which is appended
/// to `out`, ascending.
pub fn rank_rows(
    seg_id: u16,
    rows: &Vec<u32>,
    scores: &Vec<u32>,
    k: usize,
    acc: &mut Accum,
    out: &mut Vec<Hit>,
)
    requires
        old(acc).wf(),
        ascending(rows@),
        scores@.len() == rows@.len(),
    ensures
        final(acc).wf(),
        final(acc).capacity() == old(acc).capacity(),
        final(acc).touched() == head(rows@, old(acc).capacity() as int),
        final(out)@ == old(out)@ + ranked(
            seg_id,
            rows@,
            scores@,
            k as int,
            old(acc).capacity() as int,
        ),
{
    let ghost cap = acc.capacity() as int;
    acc.begin();
    let n = rows.len();
    let mut i: usize = 0;
    proof {
        acc.lemma_touched_is_domain();
        assert(rows@.take(0) =~= Seq::<u32>::empty());
    }
    while i < n
        invariant
            n == rows@.len(),
            scores@.len() == n,
            i <= n,
            ascending(rows@),
            acc.wf(),
            acc.capacity() == cap,
            cap >= 1,
            acc.touched() == head(rows@.take(i as int), cap),
            forall|j: int|
                0 <= j < acc.touched().len() ==> acc@.contains_key(#[trigger] rows@[j]) && acc@[rows@[j]]
                    == scores@[j],
        decreases n - i,
    {
        let row = rows[i];
        let ghost before = *acc;
        proof {
            acc.lemma_touched_is_domain();
            let t = acc.touched();
            if t.contains(row) {
                let j = choose|j: int| 0 <= j < t.len() && t[j] == row;
                assert(t[j] == rows@[j]);
                assert(rows@[j] < rows@[i as int]);
            }
            assert(rows@.take(i + 1) =~= rows@.take(i as int).push(row));
        }
        if acc.inc(row) {
            acc.set_score(row, scores[i]);
            proof {
                assert(acc.touched() =~= head(rows@.take(i + 1), cap));
                assert forall|j: int| 0 <= j < acc.touched().len() implies acc@.contains_key(
                    #[trigger] rows@[j],
                ) && acc@[rows@[j]] == scores@[j] by {
                    if j < i {
                        assert(before@.contains_key(rows@[j]));
                        assert(rows@[j] < rows@[i as int]);
                    }
                }
            }
        } else {
            proof {
                assert(acc.touched() =~= head(rows@.take(i + 1), cap));
            }
        }
        i = i + 1;
    }
    proof {
        assert(rows@.take(n as int) =~= rows@);
    }
    let ghost hits = row_hits(seg_id, head(rows@, cap), scores@);
    let mut kept: Vec<Hit> = Vec::new();
    let m = acc.iter_touched().len();
    let mut t: usize = 0;
    proof {
        assert(hits.take(0) =~= Seq::<Hit>::empty());
    }
    while t < m
        invariant
            acc.wf(),
            m == acc.touched().len(),
            acc.touched() == head(rows@, cap),
            hits == row_hits(seg_id, head(rows@, cap), scores@),
            t <= m,
            forall|j: int|
                0 <= j < acc.touched().len() ==> acc@.contains_key(#[trigger] rows@[j]) && acc@[rows@[j]]
                    == scores@[j],
            kept@ == keep_fold(hits.take(t as int), k as int),
        decreases m - t,
    {
        let row = acc.iter_touched()[t];
        proof {
            assert(row == rows@[t as int]);
            assert(acc@.contains_key(rows@[t as int]));
        }
        let score = acc.get_score(row);
        let h = Hit { seg: seg_id, row, score };
        proof {
            let cur = hits.take(t + 1);
            assert(cur.drop_last() =~= hits.take(t as int));
            assert(cur.last() == h);
        }
        keep(&mut kept, h, k);
        t = t + 1;
    }
    proof {
        assert(hits.take(m as int) =~= hits);
    }
    let ghost start = out@;
    let kn = kept.len();
    let mut x: usize = 0;
    while x < kn
        invariant
            kn == kept@.len(),
            x <= kn,
            out@ == start + kept@.take(x as int),
        decreases kn - x,
    {
        out.push(kept[x]);
        x = x + 1;
        assert(out@ =~= start + kept@.take(x as int));
    }
    proof {
        assert(kept@.take(kn as int) =~= kept@);
    }
}

impl IndexView {
    /// `pool` is `prev` and then what segment `n - 1` reports when the
    /// scoring function returns `scores` for its rows.
    pub open spec fn pooled_step<F: Fn(RowFeatures) -> u32>(
        &self,
        q: Query256,
        text: Seq<u8>,
        score: &F,
        cap: int,
        n: int,
        prev: Seq<Hit>,
        scores: Seq<u32>,
        pool: Seq<Hit>,
    ) -> bool {
        &&& outcome(score, self.segments@[n - 1].scored_features(q, text), scores)
        &&& pool == prev + ranked(
            (n - 1) as u16,
            self.segments@[n - 1].scored_rows(q, text),
            scores,
            q.k as int,
            cap,
        )
    }

    /// `pool` is what the first `n` segments report for a query, one
    /// after the other, for some results of the scoring function.
    pub open spec fn pooled<F: Fn(RowFeatures) -> u32>(
        &self,
        q: Query256,
        text: Seq<u8>,
        score: &F,
        cap: int,
        n: int,
        pool: Seq<Hit>,
    ) -> bool
        decreases n,
    {
        if n <= 0 {
            pool == Seq::<Hit>::empty()
        } else {
            exists|prev: Seq<Hit>, scores: Seq<u32>|
                self.pooled(q, text, score, cap, n - 1, prev) && #[trigger] self.pooled_step(
                    q,
                    text,
                    score,
                    cap,
                    n,
                    prev,
                    scores,
                    pool,
                )
        }
    }

    /// What the first `n - 1` segments report, followed by what segment
    /// `n - 1` reports, is what the first `n` segments report.
    pub proof fn lemma_pooled_next<F: Fn(RowFeatures) -> u32>(
        &self,
        q: Query256,
        text: Seq<u8>,
        score: &F,
        cap: int,
        n: int,
        prev: Seq<Hit>,
        scores: Seq<u32>,
    )
        requires
            1 <= n <= self.segments@.len(),
            n <= 65536,
            self.pooled(q, text, score, cap, n - 1, prev),
            outcome(score, self.segments@[n - 1].scored_features(q, text), scores),
        ensures
            self.pooled(
                q,
                text,
                score,
                cap,
                n,
                prev + ranked(
                    (n - 1) as u16,
                    self.segments@[n - 1].scored_rows(q, text),
                    scores,
                    q.k as int,
                    cap,
                ),
            ),
    {
        let pool = prev + ranked(
            (n - 1) as u16,
            self.segments@[n - 1].scored_rows(q, text),
            scores,
            q.k as int,
            cap,
        );
        assert(self.pooled_step(q, text, score, cap, n, prev, scores, pool));
    }

    /// Views whose segments hold the same rows, one by one, report the same
    /// for a query: what one may report, the other may.
    pub proof fn lemma_same_rows_same_pool<F: Fn(RowFeatures) -> u32>(
        &self,
        other: &IndexView,
        q: Query256,
        text: Seq<u8>,
        score: &F,
        cap: int,
        n: int,
        pool: Seq<Hit>,
    )
        requires
            0 <= n <= self.segments@.len(),
            self.segments@.len() == other.segments@.len(),
            forall|i: int|
                0 <= i < self.segments@.len() ==> same_rows(
                    &*#[trigger] self.segments@[i],
                    &*other.segments@[i],
                ),
        ensures
            self.pooled(q, text, score, cap, n, pool) == other.pooled(q, text, score, cap, n, pool),
        decreases n,
    {
        if n > 0 {
            let a = self.segments@[n - 1];
            let b = other.segments@[n - 1];
            assert(same_rows(&*a, &*b));
            lemma_same_rows_same_search(&*a, &*b, q, text);
            if self.pooled(q, text, score, cap, n, pool) {
                let (prev, scores) = choose|prev: Seq<Hit>, scores: Seq<u32>|
                    self.pooled(q, text, score, cap, n - 1, prev) && #[trigger] self.pooled_step(
                        q,
                        text,
                        score,
                        cap,
                        n,
                        prev,
                        scores,
                        pool,
                    );
                self.lemma_same_rows_same_pool(other, q, text, score, cap, n - 1, prev);
                assert(other.pooled_step(q, text, score, cap, n, prev, scores, pool));
            }
            if other.pooled(q, text, score, cap, n, pool) {
                let (prev, scores) = choose|prev: Seq<Hit>, scores: Seq<u32>|
                    other.pooled(q, text, score, cap, n - 1, prev) && #[trigger] other.pooled_step(
                        q,
                        text,
                        score,
                        cap,
                        n,
                        prev,
                        scores,
                        pool,
                    );
                self.lemma_same_rows_same_pool(other, q, text, score, cap, n - 1, prev);
                assert(self.pooled_step(q, text, score, cap, n, prev, scores, pool));
            }
        }
    }

    /// Searches every segment and returns the best `q.k` hits of all, best
    /// first.
    pub fn search<F: Fn(RowFeatures) -> u32>(
        &self,
        q: Query256,
        text: &[u8],
        score: &F,
        sc: &mut Scratch,
        acc: &mut Accum,
    ) -> (hits: Vec<Hit>)
        requires
            self.wf(),
            old(acc).wf(),
            forall|f: RowFeatures| f.wf() ==> score.requires((f,)),
        ensures
            final(acc).wf(),
            final(acc).capacity() == old(acc).capacity(),
            hits@.len() <= q.k,
            forall|i: int| 0 <= i < hits@.len() ==> hit_in_view(self, #[trigger] hits@[i]),
            exists|pool: Seq<Hit>|
                #![trigger keep_fold(pool, q.k as int)]
                self.pooled(
                    q,
                    text@,
                    score,
                    old(acc).capacity() as int,
                    self.segments@.len() as int,
                    pool,
                ) && hits@ == keep_fold(pool, q.k as int).reverse(),
    {
        let ghost cap = acc.capacity() as int;
        let mut pool: Vec<Hit> = Vec::new();
        let n = self.segments.len();
        let mut i: usize = 0;
        while i < n
            invariant
                self.wf(),
                n == self.segments@.len(),
                i <= n,
                acc.wf(),
                acc.capacity() == cap,
                forall|f: RowFeatures| f.wf() ==> score.requires((f,)),
                self.pooled(q, text@, score, cap, i as int, pool@),
                forall|j: int| 0 <= j < pool@.len() ==> hit_in_view(self, #[trigger] pool@[j]),
            decreases n - i,
        {
            let ghost prev = pool@;
            self.segments[i].search_into_v2(i as u16, q, text, score, sc, acc, &mut pool);
            proof {
                let scores = sc.scores@;
                let next = i as int + 1;
                assert((next - 1) as u16 == i as u16);
                self.lemma_pooled_next(q, text@, score, cap, next, prev, scores);
                assert(self.pooled(q, text@, score, cap, next, pool@));
            }
            i = i + 1;
        }
        let k = q.k as usize;
        let mut kept: Vec<Hit> = Vec::new();
        let m = pool.len();
        let mut t: usize = 0;
        proof {
            assert(pool@.take(0) =~= Seq::<Hit>::empty());
        }
        while t < m
            invariant
                m == pool@.len(),
                t <= m,
                kept@ == keep_fold(pool@.take(t as int), k as int),
            decreases m - t,
        {
            proof {
                let cur = pool@.take(t + 1);
                assert(cur.drop_last() =~= pool@.take(t as int));
                assert(cur.last() == pool@[t as int]);
            }
            keep(&mut kept, pool[t], k);
            t = t + 1;
        }
        proof {
            assert(pool@.take(m as int) =~= pool@);
            lemma_keep_fold_shape(pool@, k as int);
            if k >= 1 {
                lemma_keep_fold_best(pool@, k as int);
            }
            assert forall|j: int| 0 <= j < kept@.len() implies hit_in_view(
                self,
                #[trigger] kept@[j],
            ) by {
                assert(pool@.contains(kept@[j]));
                let x = choose|x: int| 0 <= x < pool@.len() && pool@[x] == kept@[j];
                assert(hit_in_view(self, pool@[x]));
            }
        }
        let mut hits: Vec<Hit> = Vec::new();
        let kn = kept.len();
        let mut x: usize = kn;
        while x > 0
            invariant
                kn == kept@.len(),
                x <= kn,
                hits@.len() == kn - x,
                forall|j: int| 0 <= j < hits@.len() ==> hits@[j] == kept@[kn - 1 - j],
                forall|j: int| 0 <= j < kept@.len() ==> hit_in_view(self, #[trigger] kept@[j]),
            decreases x,
        {
            x = x - 1;
            hits.push(kept[x]);
        }
        proof {
            assert(hits@ =~= kept@.reverse());
        }
        hits
    }
}

} // verus!
