//! Keeping the best `k` hits of a stream.
//!
//! The kept hits are held in ascending order, so the worst of them is the
//! first. A new hit is taken while fewer than `k` are kept; after that it
//! must come after the worst kept hit in the order of hits, which it then
//! replaces. The order is by score, then by row, then by segment, so of two
//! hits with the same score the one with the higher row is the better.

use vstd::prelude::*;
use crate::wire::{hit_lt, Hit};

verus! {

/// Number of leading hits of `s` that come before `h`.
pub open spec fn insert_pos(s: Seq<Hit>, h: Hit) -> int
    decreases s.len(),
{
    if s.len() == 0 || !hit_lt(s[0], h) {
        0
    } else {
        1 + insert_pos(s.drop_first(), h)
    }
}

/// `s` with `h` put in after the leading hits that come before it.
pub open spec fn sorted_insert(s: Seq<Hit>, h: Hit) -> Seq<Hit> {
    s.insert(insert_pos(s, h), h)
}

/// The kept hits after `h` is offered.
pub open spec fn keep_push(kept: Seq<Hit>, h: Hit, k: int) -> Seq<Hit> {
    if kept.len() < k {
        sorted_insert(kept, h)
    } else if kept.len() > 0 && hit_lt(kept[0], h) {
        sorted_insert(kept.drop_first(), h)
    } else {
        kept
    }
}

/// The kept hits after every hit of `hits` was offered in turn.
pub open spec fn keep_fold(hits: Seq<Hit>, k: int) -> Seq<Hit>
    decreases hits.len(),
{
    if hits.len() == 0 {
        Seq::empty()
    } else {
        keep_push(keep_fold(hits.drop_last(), k), hits.last(), k)
    }
}

/// Ascending in the order of hits.
pub open spec fn hits_ascending(s: Seq<Hit>) -> bool {
    forall|i: int, j: int| 0 <= i < j < s.len() ==> !hit_lt(#[trigger] s[j], #[trigger] s[i])
}

proof fn lemma_insert_pos_bounds(s: Seq<Hit>, h: Hit)
    ensures
        0 <= insert_pos(s, h) <= s.len(),
        forall|i: int| 0 <= i < insert_pos(s, h) ==> hit_lt(#[trigger] s[i], h),
        insert_pos(s, h) < s.len() ==> !hit_lt(s[insert_pos(s, h)], h),
    decreases s.len(),
{
    if s.len() > 0 && hit_lt(s[0], h) {
        let rest = s.drop_first();
        lemma_insert_pos_bounds(rest, h);
        assert forall|i: int| 0 <= i < insert_pos(s, h) implies hit_lt(#[trigger] s[i], h) by {
            if i > 0 {
                assert(rest[i - 1] == s[i]);
            }
        }
        if insert_pos(s, h) < s.len() {
            assert(rest[insert_pos(rest, h)] == s[insert_pos(s, h)]);
        }
    }
}

/// Inserting into an ascending list keeps it ascending.
pub proof fn lemma_sorted_insert_ascending(s: Seq<Hit>, h: Hit)
    requires
        hits_ascending(s),
    ensures
        hits_ascending(sorted_insert(s, h)),
        sorted_insert(s, h).len() == s.len() + 1,
{
    lemma_insert_pos_bounds(s, h);
    let p = insert_pos(s, h);
    let r = sorted_insert(s, h);
    assert forall|i: int, j: int| 0 <= i < j < r.len() implies !hit_lt(
        #[trigger] r[j],
        #[trigger] r[i],
    ) by {
        if j < p {
            assert(r[i] == s[i] && r[j] == s[j]);
        } else if j == p {
            assert(r[i] == s[i]);
            assert(hit_lt(s[i], h));
        } else if i < p {
            assert(r[i] == s[i] && r[j] == s[j - 1]);
        } else if i == p {
            assert(r[j] == s[j - 1]);
            assert(!hit_lt(s[p], h));
            if j - 1 > p {
                assert(!hit_lt(s[j - 1], s[p]));
            }
        } else {
            assert(r[i] == s[i - 1] && r[j] == s[j - 1]);
        }
    }
}

/// The kept hits are ascending and never more than `k`.
pub proof fn lemma_keep_fold_shape(hits: Seq<Hit>, k: int)
    requires
        k >= 0,
    ensures
        hits_ascending(keep_fold(hits, k)),
        keep_fold(hits, k).len() == if hits.len() < k {
            hits.len() as int
        } else {
            k
        },
    decreases hits.len(),
{
    if hits.len() > 0 {
        let before = keep_fold(hits.drop_last(), k);
        lemma_keep_fold_shape(hits.drop_last(), k);
        let h = hits.last();
        if before.len() < k {
            lemma_sorted_insert_ascending(before, h);
        } else if before.len() > 0 && hit_lt(before[0], h) {
            let rest = before.drop_first();
            assert forall|i: int, j: int| 0 <= i < j < rest.len() implies !hit_lt(
                #[trigger] rest[j],
                #[trigger] rest[i],
            ) by {
                assert(rest[i] == before[i + 1] && rest[j] == before[j + 1]);
            }
            lemma_sorted_insert_ascending(rest, h);
        }
    }
}

/// `a` is not after `b` in the order of hits.
pub open spec fn hit_le(a: Hit, b: Hit) -> bool {
    !hit_lt(b, a)
}

proof fn lemma_sorted_insert_members(s: Seq<Hit>, h: Hit)
    ensures
        sorted_insert(s, h).contains(h),
        forall|i: int| 0 <= i < s.len() ==> sorted_insert(s, h).contains(#[trigger] s[i]),
        forall|j: int|
            0 <= j < sorted_insert(s, h).len() ==> (#[trigger] sorted_insert(s, h)[j]) == h
                || s.contains(sorted_insert(s, h)[j]),
{
    lemma_insert_pos_bounds(s, h);
    let p = insert_pos(s, h);
    let r = sorted_insert(s, h);
    assert(r[p] == h);
    assert forall|i: int| 0 <= i < s.len() implies r.contains(#[trigger] s[i]) by {
        if i < p {
            assert(r[i] == s[i]);
        } else {
            assert(r[i + 1] == s[i]);
        }
    }
    assert forall|j: int| 0 <= j < r.len() implies (#[trigger] r[j]) == h || s.contains(r[j]) by {
        if j < p {
            assert(r[j] == s[j]);
        } else if j > p {
            assert(r[j] == s[j - 1]);
        }
    }
}

/// Every kept hit was offered. With `k` at least one, every offered hit
/// is kept or is not after the worst kept hit in the order of hits.
pub proof fn lemma_keep_fold_best(hits: Seq<Hit>, k: int)
    requires
        k >= 1,
    ensures
        forall|j: int|
            0 <= j < keep_fold(hits, k).len() ==> hits.contains(
                #[trigger] keep_fold(hits, k)[j],
            ),
        forall|i: int|
            0 <= i < hits.len() ==> keep_fold(hits, k).contains(#[trigger] hits[i]) || (
            keep_fold(hits, k).len() == k && hit_le(
                hits[i],
                keep_fold(hits, k)[0],
            )),
    decreases hits.len(),
{
    if hits.len() > 0 {
        let init = hits.drop_last();
        let before = keep_fold(init, k);
        let h = hits.last();
        let after = keep_fold(hits, k);
        lemma_keep_fold_best(init, k);
        lemma_keep_fold_shape(init, k);
        lemma_keep_fold_shape(hits, k);
        assert(hits[hits.len() - 1] == h);
        assert forall|x: Hit| init.contains(x) implies hits.contains(x) by {
            let m = choose|m: int| 0 <= m < init.len() && init[m] == x;
            assert(hits[m] == x);
        }
        if before.len() < k {
            lemma_sorted_insert_members(before, h);
            assert forall|i: int| 0 <= i < hits.len() implies after.contains(#[trigger] hits[i]) || (
            after.len() == k && hit_le(hits[i], after[0])) by {
                if i < init.len() {
                    assert(init[i] == hits[i]);
                    assert(before.contains(init[i]));
                    let m = choose|m: int| 0 <= m < before.len() && before[m] == init[i];
                    assert(after.contains(before[m]));
                }
            }
            assert forall|j: int| 0 <= j < after.len() implies hits.contains(
                #[trigger] after[j],
            ) by {
                if after[j] != h {
                    assert(before.contains(after[j]));
                    let m = choose|m: int| 0 <= m < before.len() && before[m] == after[j];
                    assert(init.contains(before[m]));
                }
            }
        } else if before.len() > 0 && hit_lt(before[0], h) {
            let rest = before.drop_first();
            let worst = before[0];
            lemma_sorted_insert_members(rest, h);
            lemma_insert_pos_bounds(rest, h);
            assert(hits_ascending(after));
            assert forall|j: int| 0 <= j < after.len() implies hits.contains(
                #[trigger] after[j],
            ) by {
                if after[j] != h {
                    assert(rest.contains(after[j]));
                    let m = choose|m: int| 0 <= m < rest.len() && rest[m] == after[j];
                    assert(before[m + 1] == rest[m]);
                    assert(init.contains(before[m + 1]));
                }
            }
            // the new worst is not before the old worst
            assert(hit_le(worst, after[0])) by {
                if after[0] != h {
                    assert(rest.contains(after[0]));
                    let m = choose|m: int| 0 <= m < rest.len() && rest[m] == after[0];
                    assert(before[m + 1] == rest[m]);
                    assert(!hit_lt(before[m + 1], before[0]));
                }
            }
            assert forall|i: int| 0 <= i < hits.len() implies after.contains(#[trigger] hits[i]) || (
            after.len() == k && hit_le(hits[i], after[0])) by {
                if i < init.len() {
                    assert(init[i] == hits[i]);
                    if before.contains(init[i]) {
                        let m = choose|m: int| 0 <= m < before.len() && before[m] == init[i];
                        if m > 0 {
                            assert(rest[m - 1] == before[m]);
                            assert(after.contains(rest[m - 1]));
                        }
                    }
                }
            }
        } else {
            assert forall|i: int| 0 <= i < hits.len() implies after.contains(#[trigger] hits[i]) || (
            after.len() == k && hit_le(hits[i], after[0])) by {
                if i < init.len() {
                    assert(init[i] == hits[i]);
                }
            }
        }
    }
}

/// Position at which `h` goes into the ascending list `kept`.
fn position(kept: &Vec<Hit>, from: usize, h: &Hit) -> (p: usize)
    requires
        from <= kept@.len(),
    ensures
        p == from + insert_pos(kept@.skip(from as int), *h),
        from <= p <= kept@.len(),
{
    let n = kept.len();
    let mut i: usize = from;
    proof {
        lemma_insert_pos_bounds(kept@.skip(from as int), *h);
    }
    while i < n && kept[i].precedes(h)
        invariant
            n == kept@.len(),
            from <= i <= n,
            insert_pos(kept@.skip(from as int), *h) == (i - from) + insert_pos(
                kept@.skip(i as int),
                *h,
            ),
        decreases n - i,
    {
        proof {
            let cur = kept@.skip(i as int);
            assert(cur[0] == kept@[i as int]);
            assert(cur.drop_first() =~= kept@.skip(i + 1));
        }
        i = i + 1;
    }
    proof {
        let cur = kept@.skip(i as int);
        if i < n {
            assert(cur[0] == kept@[i as int]);
        }
    }
    i
}

/// Offers `h` to the kept hits.
pub fn keep(kept: &mut Vec<Hit>, h: Hit, k: usize)
    ensures
        final(kept)@ == keep_push(old(kept)@, h, k as int),
{
    if kept.len() < k {
        let p = position(kept, 0, &h);
        proof {
            assert(kept@.skip(0) =~= kept@);
        }
        kept.insert(p, h);
    } else if kept.len() > 0 {
        let worst = kept[0];
        if worst.precedes(&h) {
            let ghost before = kept@;
            let p = position(kept, 1, &h);
            kept.insert(p, h);
            kept.remove(0);
            proof {
                let rest = before.drop_first();
                assert(before.skip(1) =~= rest);
                assert(kept@ =~= rest.insert(p - 1, h));
            }
        }
    }
}

} // verus!
