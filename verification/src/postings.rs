//! Sorted posting lists: membership, bounded copy, bounded intersection and
//! lookup of a short-token list by its key.

use vstd::prelude::*;

verus! {

/// Strictly ascending: sorted with no entry twice.
pub open spec fn ascending(s: Seq<u32>) -> bool {
    forall|i: int, j: int| 0 <= i < j < s.len() ==> s[i] < s[j]
}

/// The keys of a short-token table are strictly ascending.
pub open spec fn keys_ascending(pairs: Seq<(u64, Vec<u32>)>) -> bool {
    forall|i: int, j: int| 0 <= i < j < pairs.len() ==> pairs[i].0 < pairs[j].0
}

/// The first `n` entries of `s`, or all of `s` when it has fewer.
pub open spec fn head<T>(s: Seq<T>, n: int) -> Seq<T> {
    if n >= s.len() {
        s
    } else if n <= 0 {
        Seq::empty()
    } else {
        s.take(n)
    }
}

/// The entries of `a` that also occur in `b`, in the order of `a`.
pub open spec fn common(a: Seq<u32>, b: Seq<u32>) -> Seq<u32>
    decreases a.len(),
{
    if a.len() == 0 {
        Seq::empty()
    } else {
        let r = common(a.drop_last(), b);
        if b.contains(a.last()) {
            r.push(a.last())
        } else {
            r
        }
    }
}

/// The intersection of two posting lists, cut off after `bound` entries.
pub open spec fn intersect_bounded(a: Seq<u32>, b: Seq<u32>, bound: int) -> Seq<u32> {
    head(common(a, b), bound)
}

/// An entry is in `common(a, b)` exactly when it is in both lists.
pub proof fn lemma_common_contains(a: Seq<u32>, b: Seq<u32>, x: u32)
    ensures
        common(a, b).contains(x) <==> (a.contains(x) && b.contains(x)),
    decreases a.len(),
{
    if a.len() > 0 {
        let init = a.drop_last();
        let r = common(init, b);
        let c = common(a, b);
        lemma_common_contains(init, b, x);
        if c.contains(x) {
            let k = choose|k: int| 0 <= k < c.len() && c[k] == x;
            if k < r.len() {
                assert(r[k] == x);
                assert(r.contains(x));
                assert(init.contains(x));
                let m = choose|m: int| 0 <= m < init.len() && init[m] == x;
                assert(a[m] == x);
            } else {
                assert(x == a.last());
                assert(a[a.len() - 1] == x);
            }
        }
        if a.contains(x) && b.contains(x) {
            let m = choose|m: int| 0 <= m < a.len() && a[m] == x;
            if m < a.len() - 1 {
                assert(init[m] == x);
                assert(init.contains(x));
                assert(r.contains(x));
                let k = choose|k: int| 0 <= k < r.len() && r[k] == x;
                assert(c[k] == x);
            } else {
                assert(c[c.len() - 1] == x);
            }
        }
    }
}

/// Exactly the shared entries are in `common(a, b)`, no more of them than
/// `a` has, and it ascends when `a` does.
pub proof fn lemma_common_members(a: Seq<u32>, b: Seq<u32>)
    ensures
        forall|x: u32| #[trigger]
            common(a, b).contains(x) <==> (a.contains(x) && b.contains(x)),
        common(a, b).len() <= a.len(),
        ascending(a) ==> ascending(common(a, b)),
    decreases a.len(),
{
    assert forall|x: u32| #[trigger]
        common(a, b).contains(x) <==> (a.contains(x) && b.contains(x)) by {
        lemma_common_contains(a, b, x);
    }
    if a.len() > 0 {
        let init = a.drop_last();
        let r = common(init, b);
        lemma_common_members(init, b);
        let c = common(a, b);
        if ascending(a) {
            assert(ascending(init));
            assert forall|k: int| 0 <= k < r.len() implies #[trigger] r[k] < a.last() by {
                assert(r.contains(r[k]));
                lemma_common_contains(init, b, r[k]);
                let m = choose|m: int| 0 <= m < init.len() && init[m] == r[k];
                assert(a[m] < a[a.len() - 1]);
            }
            assert forall|i: int, j: int| 0 <= i < j < c.len() implies c[i] < c[j] by {
                if j < r.len() {
                    assert(r[i] < r[j]);
                } else {
                    assert(c[i] == r[i]);
                }
            }
        }
    }
}

/// An ascending list holds no entry twice, and its last entry is its
/// greatest.
pub proof fn lemma_ascending_last(s: Seq<u32>, x: u32)
    requires
        ascending(s),
        s.len() > 0,
        s.contains(x),
    ensures
        x <= s.last(),
        s.drop_last().contains(x) <==> x != s.last(),
        ascending(s.drop_last()),
{
    let k = choose|k: int| 0 <= k < s.len() && s[k] == x;
    let init = s.drop_last();
    if k < s.len() - 1 {
        assert(s[k] < s[s.len() - 1]);
        assert(init[k] == x);
    }
    if init.contains(x) {
        let m = choose|m: int| 0 <= m < init.len() && init[m] == x;
        assert(s[m] < s[s.len() - 1]);
    }
}

/// Two ascending lists with the same entries are the same list.
pub proof fn lemma_ascending_same_members(a: Seq<u32>, b: Seq<u32>)
    requires
        ascending(a),
        ascending(b),
        forall|x: u32| a.contains(x) <==> b.contains(x),
    ensures
        a == b,
    decreases a.len(),
{
    if a.len() == 0 {
        if b.len() > 0 {
            assert(b.contains(b[0]));
        }
        assert(a =~= b);
    } else {
        assert(a.contains(a.last())) by {
            assert(a[a.len() - 1] == a.last());
        }
        assert(b.contains(a.last()));
        assert(b.len() > 0);
        assert(b.contains(b.last())) by {
            assert(b[b.len() - 1] == b.last());
        }
        lemma_ascending_last(a, a.last());
        lemma_ascending_last(b, b.last());
        lemma_ascending_last(b, a.last());
        lemma_ascending_last(a, b.last());
        assert(a.last() == b.last());
        let ia = a.drop_last();
        let ib = b.drop_last();
        assert forall|x: u32| ia.contains(x) <==> ib.contains(x) by {
            if ia.contains(x) {
                let m = choose|m: int| 0 <= m < ia.len() && ia[m] == x;
                assert(a[m] == x);
                assert(a.contains(x));
                lemma_ascending_last(a, x);
                lemma_ascending_last(b, x);
            }
            if ib.contains(x) {
                let m = choose|m: int| 0 <= m < ib.len() && ib[m] == x;
                assert(b[m] == x);
                assert(b.contains(x));
                lemma_ascending_last(a, x);
                lemma_ascending_last(b, x);
            }
        }
        lemma_ascending_same_members(ia, ib);
        assert(a =~= ia.push(a.last()));
        assert(b =~= ib.push(b.last()));
    }
}

/// The head of an ascending list ascends, and holds only entries of the
/// list.
pub proof fn lemma_head_ascending(s: Seq<u32>, n: int)
    ensures
        ascending(s) ==> ascending(head(s, n)),
        head(s, n).len() <= s.len(),
        n >= 0 ==> head(s, n).len() <= n,
        forall|k: int| 0 <= k < head(s, n).len() ==> (#[trigger] head(s, n)[k]) == s[k],
{
}

/// `common` over a list that is split in two is the two results in a row.
pub proof fn lemma_common_split(a: Seq<u32>, c: Seq<u32>, b: Seq<u32>)
    ensures
        common(a + c, b) == common(a, b) + common(c, b),
    decreases c.len(),
{
    if c.len() == 0 {
        assert(a + c =~= a);
        assert(common(a, b) + common(c, b) =~= common(a, b));
    } else {
        let ac = a + c;
        assert(ac.drop_last() =~= a + c.drop_last());
        assert(ac.last() == c.last());
        lemma_common_split(a, c.drop_last(), b);
        let x = c.last();
        if b.contains(x) {
            assert((common(a, b) + common(c.drop_last(), b)).push(x) =~= common(a, b) + common(
                c.drop_last(),
                b,
            ).push(x));
        }
    }
}

/// A list with no entry in `b` contributes nothing.
pub proof fn lemma_common_none(c: Seq<u32>, b: Seq<u32>)
    requires
        forall|k: int| 0 <= k < c.len() ==> !b.contains(#[trigger] c[k]),
    ensures
        common(c, b) == Seq::<u32>::empty(),
    decreases c.len(),
{
    if c.len() > 0 {
        lemma_common_none(c.drop_last(), b);
        assert(c.last() == c[c.len() - 1]);
    }
}

/// Whether the sorted list `v` holds `x`.
pub fn contains_sorted(v: &[u32], x: u32) -> (r: bool)
    requires
        ascending(v@),
    ensures
        r == v@.contains(x),
{
    let n = v.len();
    let mut lo: usize = 0;
    let mut hi: usize = n;
    while lo < hi
        invariant
            n == v@.len(),
            lo <= hi <= n,
            ascending(v@),
            forall|i: int| 0 <= i < lo ==> v@[i] < x,
            forall|i: int| hi <= i < n ==> v@[i] >= x,
        decreases hi - lo,
    {
        let mid = lo + (hi - lo) / 2;
        let m = v[mid];
        if m < x {
            lo = mid + 1;
        } else {
            hi = mid;
        }
    }
    if lo < n && v[lo] == x {
        true
    } else {
        proof {
            if v@.contains(x) {
                let k = choose|k: int| 0 <= k < v@.len() && v@[k] == x;
                if k > lo {
                    assert(v@[lo as int] < v@[k]);
                }
            }
        }
        false
    }
}

/// Appends to `out` the first entries of `src`, as many as fit under `cap`.
pub fn extend_cap(out: &mut Vec<u32>, src: &[u32], cap: usize)
    ensures
        final(out)@ == old(out)@ + head(src@, cap - old(out)@.len()),
{
    let have = out.len();
    let room: usize = if cap > have {
        cap - have
    } else {
        0
    };
    let take: usize = if room < src.len() {
        room
    } else {
        src.len()
    };
    let ghost start = out@;
    let mut i: usize = 0;
    while i < take
        invariant
            i <= take <= src@.len(),
            out@ == start + src@.take(i as int),
        decreases take - i,
    {
        out.push(src[i]);
        i = i + 1;
        assert(out@ =~= start + src@.take(i as int));
    }
    proof {
        assert(src@.take(src@.len() as int) =~= src@);
        assert(start + Seq::<u32>::empty() =~= start);
        assert(src@.take(0) =~= Seq::<u32>::empty());
    }
}

/// Finds the posting list stored under `key` in a short-token table.
pub fn lookup_full6(pairs: &Vec<(u64, Vec<u32>)>, key: u64) -> (r: Option<usize>)
    requires
        keys_ascending(pairs@),
    ensures
        match r {
            Some(i) => i < pairs@.len() && pairs@[i as int].0 == key,
            None => forall|i: int| 0 <= i < pairs@.len() ==> pairs@[i].0 != key,
        },
{
    let n = pairs.len();
    let mut lo: usize = 0;
    let mut hi: usize = n;
    while lo < hi
        invariant
            n == pairs@.len(),
            lo <= hi <= n,
            keys_ascending(pairs@),
            forall|i: int| 0 <= i < lo ==> pairs@[i].0 < key,
            forall|i: int| hi <= i < n ==> pairs@[i].0 >= key,
        decreases hi - lo,
    {
        let mid = lo + (hi - lo) / 2;
        let k = pairs[mid].0;
        if k < key {
            lo = mid + 1;
        } else {
            hi = mid;
        }
    }
    if lo < n && pairs[lo].0 == key {
        Some(lo)
    } else {
        proof {
            assert forall|i: int| 0 <= i < pairs@.len() implies pairs@[i].0 != key by {
                if i > lo {
                    assert(pairs@[lo as int].0 < pairs@[i].0);
                }
            }
        }
        None
    }
}

/// Replaces `out` by its intersection with `b`, stopping once `bound`
/// entries are collected. `tmp` is working space.
pub fn intersect_in_place_bounded_tmp(
    out: &mut Vec<u32>,
    b: &[u32],
    bound: usize,
    tmp: &mut Vec<u32>,
)
    requires
        ascending(old(out)@),
        ascending(b@),
    ensures
        final(out)@ == intersect_bounded(old(out)@, b@, bound as int),
        final(tmp)@ == (if old(out)@.len() == 0 || b@.len() == 0 {
            old(tmp)@
        } else {
            final(out)@
        }),
{
    let ghost a = out@;
    if out.len() == 0 || b.len() == 0 {
        proof {
            lemma_common_members(a, b@);
            if a.len() > 0 {
                assert forall|k: int| 0 <= k < a.len() implies !b@.contains(#[trigger] a[k]) by {
                    if b@.contains(a[k]) {
                        let m = choose|m: int| 0 <= m < b@.len() && b@[m] == a[k];
                    }
                }
                lemma_common_none(a, b@);
            }
        }
        out.clear();
        return ;
    }
    let n = out.len();
    let m = b.len();
    let mut i: usize = 0;
    let mut j: usize = 0;
    tmp.clear();
    proof {
        assert(a.take(0) =~= Seq::<u32>::empty());
    }
    while i < n && j < m && tmp.len() < bound
        invariant
            a == out@,
            n == a.len(),
            m == b@.len(),
            i <= n,
            j <= m,
            ascending(a),
            ascending(b@),
            tmp@.len() <= bound,
            tmp@ == common(a.take(i as int), b@),
            i < n ==> forall|t: int| 0 <= t < j ==> b@[t] < a[i as int],
        decreases (n - i) + (m - j),
    {
        let x = out[i];
        let y = b[j];
        proof {
            let cur = a.take(i as int + 1);
            assert(cur.drop_last() =~= a.take(i as int));
            assert(cur.last() == x);
        }
        if x == y {
            proof {
                assert(b@[j as int] == x);
                assert(b@.contains(x));
            }
            tmp.push(x);
            i = i + 1;
            j = j + 1;
        } else if x < y {
            proof {
                if b@.contains(x) {
                    let t = choose|t: int| 0 <= t < b@.len() && b@[t] == x;
                    if t > j {
                        assert(b@[j as int] < b@[t]);
                    }
                }
            }
            i = i + 1;
        } else {
            j = j + 1;
        }
    }
    proof {
        let done = a.take(i as int);
        let rest = a.skip(i as int);
        assert(done + rest =~= a);
        lemma_common_split(done, rest, b@);
        lemma_common_members(rest, b@);
        if i < n && j >= m {
            assert forall|k: int| 0 <= k < rest.len() implies !b@.contains(#[trigger] rest[k]) by {
                if b@.contains(rest[k]) {
                    let t = choose|t: int| 0 <= t < b@.len() && b@[t] == rest[k];
                    assert(rest[k] == a[i + k]);
                    assert(b@[t] < a[i as int]);
                    if k > 0 {
                        assert(a[i as int] < a[i + k]);
                    }
                }
            }
            lemma_common_none(rest, b@);
            assert(tmp@ + Seq::<u32>::empty() =~= tmp@);
        } else if i >= n {
            assert(rest =~= Seq::<u32>::empty());
            assert(tmp@ + Seq::<u32>::empty() =~= tmp@);
        } else {
            assert(tmp@.len() == bound);
            assert((tmp@ + common(rest, b@)).take(bound as int) =~= tmp@);
        }
        assert(tmp@ =~= intersect_bounded(a, b@, bound as int));
    }
    out.clear();
    let k = tmp.len();
    let mut t: usize = 0;
    while t < k
        invariant
            k == tmp@.len(),
            t <= k,
            out@ == tmp@.take(t as int),
        decreases k - t,
    {
        out.push(tmp[t]);
        t = t + 1;
        assert(out@ =~= tmp@.take(t as int));
    }
    proof {
        assert(tmp@.take(k as int) =~= tmp@);
    }
}

} // verus!
