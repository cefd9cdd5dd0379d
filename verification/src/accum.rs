//! The touched-set accumulator: a fixed-capacity open-addressing table from
//! row id to score, emptied in constant time by moving to a new epoch.
//!
//! A slot belongs to the current query when its tag equals the current
//! epoch. Scores are 32-bit keys that order as the scores do; the first
//! touch of an id stores score zero.

use vstd::prelude::*;

verus! {

/// The scores of the rows touched by one query.
pub struct Accum {
    cap: usize,
    mask: usize,
    keys: Vec<u32>,
    vals: Vec<u32>,
    tag: Vec<u32>,
    epoch: u32,
    touched: Vec<u32>,
}

/// A power of two: positive, with a single bit set.
pub open spec fn is_pow2(n: usize) -> bool {
    n > 0 && (n as u64) & ((n - 1) as u64) == 0
}

/// Number of probe steps from slot `h` to slot `j` in a table of `cap`
/// slots.
pub open spec fn dist(h: int, j: int, cap: int) -> int {
    if j >= h {
        j - h
    } else {
        j + cap - h
    }
}

/// Number of slots among the first `n` whose tag is `epoch`.
pub open spec fn live_upto(tags: Seq<u32>, epoch: u32, n: int) -> int
    decreases n,
{
    if n <= 0 {
        0
    } else {
        live_upto(tags, epoch, n - 1) + if tags[n - 1] == epoch {
            1int
        } else {
            0int
        }
    }
}

proof fn lemma_none_live(tags: Seq<u32>, epoch: u32, n: int)
    requires
        0 <= n <= tags.len(),
        forall|s: int| 0 <= s < n ==> tags[s] != epoch,
    ensures
        live_upto(tags, epoch, n) == 0,
    decreases n,
{
    if n > 0 {
        lemma_none_live(tags, epoch, n - 1);
    }
}

proof fn lemma_all_live(tags: Seq<u32>, epoch: u32, n: int)
    requires
        0 <= n <= tags.len(),
        forall|s: int| 0 <= s < n ==> tags[s] == epoch,
    ensures
        live_upto(tags, epoch, n) == n,
    decreases n,
{
    if n > 0 {
        lemma_all_live(tags, epoch, n - 1);
    }
}

proof fn lemma_live_bound(tags: Seq<u32>, epoch: u32, n: int)
    requires
        0 <= n <= tags.len(),
    ensures
        0 <= live_upto(tags, epoch, n) <= n,
        live_upto(tags, epoch, n) == n ==> forall|s: int| 0 <= s < n ==> tags[s] == epoch,
    decreases n,
{
    if n > 0 {
        lemma_live_bound(tags, epoch, n - 1);
    }
}

proof fn lemma_live_set(tags: Seq<u32>, epoch: u32, n: int, s: int)
    requires
        0 <= s < tags.len(),
        0 <= n <= tags.len(),
        tags[s] != epoch,
    ensures
        live_upto(tags.update(s, epoch), epoch, n) == live_upto(tags, epoch, n) + if s < n {
            1int
        } else {
            0int
        },
    decreases n,
{
    if n > 0 {
        lemma_live_set(tags, epoch, n - 1, s);
    }
}

/// Whether touching `id` is a first touch that the table takes: `id` has
/// no score yet, and a slot is free.
pub open spec fn first_touch(scores: Map<u32, u32>, touched: Seq<u32>, cap: nat, id: u32) -> bool {
    !scores.contains_key(id) && touched.len() < cap
}

/// A touch that is taken leaves score zero for the id. A touch that is not
/// taken, while a slot is free, is of an id that was touched before.
pub proof fn lemma_touch_outcomes(scores: Map<u32, u32>, touched: Seq<u32>, cap: nat, id: u32)
    ensures
        first_touch(scores, touched, cap, id) ==> scores.insert(id, 0)[id] == 0,
        !first_touch(scores, touched, cap, id) && touched.len() < cap ==> scores.contains_key(id),
{
}

impl View for Accum {
    type V = Map<u32, u32>;

    /// The score of every id touched in the current epoch.
    closed spec fn view(&self) -> Map<u32, u32> {
        Map::new(|id: u32| self.holds(id), |id: u32| self.vals@[self.slot(id)])
    }
}

impl Accum {
    spec fn live(&self, s: int) -> bool {
        0 <= s < self.cap && self.tag@[s] == self.epoch
    }

    spec fn holds(&self, id: u32) -> bool {
        exists|s: int| self.live(s) && self.keys@[s] == id
    }

    spec fn slot(&self, id: u32) -> int {
        choose|s: int| self.live(s) && self.keys@[s] == id
    }

    spec fn home(&self, id: u32) -> int {
        ((id as u64) & (self.mask as u64)) as int
    }

    /// If slot `s` is live and slot `j` comes before it on the probe path
    /// of its key, then `j` is live and holds another key.
    spec fn path_ok(&self, s: int, j: int) -> bool {
        (self.live(s) && 0 <= j < self.cap && dist(self.home(self.keys@[s]), j, self.cap as int)
            < dist(self.home(self.keys@[s]), s, self.cap as int)) ==> (self.live(j)
            && self.keys@[j] != self.keys@[s])
    }

    /// The ids touched in the current epoch, in the order of their first
    /// touch.
    pub closed spec fn touched(&self) -> Seq<u32> {
        self.touched@
    }

    /// Number of slots.
    pub closed spec fn capacity(&self) -> nat {
        self.cap as nat
    }

    /// The table's internal invariant.
    pub closed spec fn wf(&self) -> bool {
        &&& is_pow2(self.cap)
        &&& self.mask == self.cap - 1
        &&& self.keys@.len() == self.cap
        &&& self.vals@.len() == self.cap
        &&& self.tag@.len() == self.cap
        &&& self.epoch >= 1
        &&& forall|s: int| 0 <= s < self.cap ==> self.tag@[s] <= self.epoch
        &&& self.touched@.len() == live_upto(self.tag@, self.epoch, self.cap as int)
        &&& forall|k: int| 0 <= k < self.touched@.len() ==> self.holds(#[trigger] self.touched@[k])
        &&& forall|s: int| self.live(s) ==> self.touched@.contains(#[trigger] self.keys@[s])
        &&& forall|s: int, t: int|
            self.live(s) && self.live(t) && self.keys@[s] == self.keys@[t] ==> s == t
        &&& forall|s: int, j: int| #[trigger] self.path_ok(s, j)
    }

    /// An id has a score exactly when it is in the touched list, and the
    /// list never outgrows the table.
    pub proof fn lemma_touched_is_domain(&self)
        requires
            self.wf(),
        ensures
            forall|id: u32| self@.contains_key(id) <==> self.touched().contains(id),
            self.touched().len() <= self.capacity(),
            self.capacity() >= 1,
    {
        lemma_live_bound(self.tag@, self.epoch, self.cap as int);
        assert forall|id: u32| self@.contains_key(id) <==> self.touched().contains(id) by {
            if self.holds(id) {
                let s = self.slot(id);
                assert(self.touched@.contains(self.keys@[s]));
            }
            if self.touched@.contains(id) {
                let k = choose|k: int| 0 <= k < self.touched@.len() && self.touched@[k] == id;
                assert(self.holds(self.touched@[k]));
            }
        }
    }

    /// A table of `pow2_capacity` slots with nothing touched.
    pub fn with_capacity_pow2(pow2_capacity: usize) -> (a: Accum)
        requires
            is_pow2(pow2_capacity),
        ensures
            a.wf(),
            a.capacity() == pow2_capacity,
            a@ == Map::<u32, u32>::empty(),
            a.touched() == Seq::<u32>::empty(),
    {
        let cap = pow2_capacity;
        let a = Accum {
            cap,
            mask: cap - 1,
            keys: vec![u32::MAX; cap],
            vals: vec![0u32; cap],
            tag: vec![0u32; cap],
            epoch: 1,
            touched: Vec::with_capacity(8192),
        };
        proof {
            lemma_none_live(a.tag@, a.epoch, cap as int);
            assert(a@ =~= Map::<u32, u32>::empty());
        }
        a
    }

    /// Starts a new epoch: nothing is touched any more.
    pub fn begin(&mut self)
        requires
            old(self).wf(),
        ensures
            final(self).wf(),
            final(self).capacity() == old(self).capacity(),
            final(self)@ == Map::<u32, u32>::empty(),
            final(self).touched() == Seq::<u32>::empty(),
    {
        self.epoch = self.epoch.wrapping_add(1);
        if self.epoch == 0 {
            let n = self.tag.len();
            let mut i: usize = 0;
            while i < n
                invariant
                    n == self.tag@.len(),
                    i <= n,
                    forall|s: int| 0 <= s < i ==> self.tag@[s] == 0,
                    self.cap == old(self).cap,
                    self.mask == old(self).mask,
                    self.keys@.len() == old(self).keys@.len(),
                    self.vals@.len() == old(self).vals@.len(),
                decreases n - i,
            {
                self.tag[i] = 0;
                i = i + 1;
            }
            self.epoch = 1;
        }
        self.touched.clear();
        proof {
            lemma_none_live(self.tag@, self.epoch, self.cap as int);
            assert(self@ =~= Map::<u32, u32>::empty());
        }
    }

    /// The slot that probing for `id` starts at.
    fn home_of(&self, id: u32) -> (h: usize)
        requires
            self.wf(),
        ensures
            h == self.home(id),
            h < self.cap,
    {
        let x: u64 = id as u64;
        let m: u64 = self.mask as u64;
        assert(x & m <= m) by (bit_vector);
        (x & m) as usize
    }

    /// The slot that holds `id`.
    fn find(&self, id: u32) -> (s: usize)
        requires
            self.wf(),
            self@.contains_key(id),
        ensures
            s == self.slot(id),
            self.live(s as int),
            self.keys@[s as int] == id,
    {
        let ghost target = self.slot(id);
        let h = self.home_of(id);
        let mut i: usize = h;
        let ghost d = dist(h as int, target, self.cap as int);
        let mut probes: usize = 0;
        loop
            invariant
                self.wf(),
                self.holds(id),
                target == self.slot(id),
                h == self.home(id),
                h < self.cap,
                i < self.cap,
                d == dist(h as int, target, self.cap as int),
                probes <= d,
                probes == dist(h as int, i as int, self.cap as int),
            decreases d - probes,
        {
            if self.keys[i] == id {
                proof {
                    assert(self.live(target) && self.keys@[target] == id);
                    assert(self.path_ok(target, i as int));
                }
                return i;
            }
            proof {
                assert(self.live(target) && self.keys@[target] == id);
                assert(i != target);
            }
            i = if i + 1 == self.cap {
                0
            } else {
                i + 1
            };
            probes = probes + 1;
        }
    }

    /// Touches `id`. Returns true on its first touch in this epoch, which
    /// stores score zero for it and appends it to the touched list. Returns
    /// false, and changes nothing, when `id` was touched before or the
    /// table is full.
    pub fn inc(&mut self, id: u32) -> (r: bool)
        requires
            old(self).wf(),
        ensures
            final(self).wf(),
            final(self).capacity() == old(self).capacity(),
            r == first_touch(old(self)@, old(self).touched(), old(self).capacity(), id),
            r ==> final(self)@ == old(self)@.insert(id, 0) && final(self).touched() == old(
                self,
            ).touched().push(id),
            !r ==> final(self)@ == old(self)@ && final(self).touched() == old(self).touched(),
    {
        let h = self.home_of(id);
        let mut i: usize = h;
        let mut probes: usize = 0;
        proof {
            lemma_live_bound(self.tag@, self.epoch, self.cap as int);
        }
        while probes < self.cap
            invariant
                *self == *old(self),
                self.wf(),
                h == self.home(id),
                h < self.cap,
                i < self.cap,
                probes <= self.cap,
                probes < self.cap ==> probes == dist(h as int, i as int, self.cap as int),
                forall|j: int|
                    0 <= j < self.cap && dist(h as int, j, self.cap as int) < probes ==> self.live(
                        j,
                    ) && self.keys@[j] != id,
            decreases self.cap - probes,
        {
            if self.tag[i] != self.epoch {
                proof {
                    if self.holds(id) {
                        let s = self.slot(id);
                        assert(self.live(s) && self.keys@[s] == id);
                        assert(self.path_ok(s, i as int));
                        let ds = dist(h as int, s, self.cap as int);
                        if ds < probes {
                            assert(self.keys@[s] != id);
                        }
                        assert(false);
                    }
                    assert(!self.holds(id));
                    lemma_live_bound(self.tag@, self.epoch, self.cap as int);
                    assert(self.touched@.len() < self.cap);
                    lemma_live_set(self.tag@, self.epoch, self.cap as int, i as int);
                }
                let ghost before = *self;
                self.tag[i] = self.epoch;
                self.keys[i] = id;
                self.vals[i] = 0;
                self.touched.push(id);
                proof {
                    assert(self.live(i as int));
                    assert(forall|s: int| s != i ==> self.live(s) == before.live(s));
                    assert(forall|s: int|
                        before.live(s) ==> self.keys@[s] == before.keys@[s] && self.vals@[s]
                            == before.vals@[s]);
                    assert forall|k: int| 0 <= k < self.touched@.len() implies self.holds(
                        #[trigger] self.touched@[k],
                    ) by {
                        if k < before.touched@.len() {
                            assert(before.holds(before.touched@[k]));
                            let s = choose|s: int|
                                before.live(s) && before.keys@[s] == before.touched@[k];
                            assert(self.live(s) && self.keys@[s] == self.touched@[k]);
                        } else {
                            assert(self.live(i as int) && self.keys@[i as int] == id);
                        }
                    }
                    assert forall|s: int| self.live(s) implies self.touched@.contains(
                        #[trigger] self.keys@[s],
                    ) by {
                        if s == i {
                            assert(self.touched@[before.touched@.len() as int] == id);
                        } else {
                            assert(before.touched@.contains(before.keys@[s]));
                            let k = choose|k: int|
                                0 <= k < before.touched@.len() && before.touched@[k]
                                    == before.keys@[s];
                            assert(self.touched@[k] == self.keys@[s]);
                        }
                    }
                    assert forall|s: int, t: int|
                        self.live(s) && self.live(t) && self.keys@[s]
                            == self.keys@[t] implies s == t by {
                        if s == i && t != i {
                            assert(before.live(t));
                            assert(before.keys@[t] == id);
                            assert(before.holds(id));
                        } else if t == i && s != i {
                            assert(before.live(s));
                            assert(before.keys@[s] == id);
                            assert(before.holds(id));
                        } else if s != i && t != i {
                            assert(before.live(s) && before.live(t));
                            assert(before.keys@[s] == before.keys@[t]);
                        }
                    }
                    assert forall|s: int, j: int| #[trigger] self.path_ok(s, j) by {
                        if self.live(s) && 0 <= j < self.cap && dist(
                            self.home(self.keys@[s]),
                            j,
                            self.cap as int,
                        ) < dist(self.home(self.keys@[s]), s, self.cap as int) {
                            if s == i {
                                assert(dist(h as int, j, self.cap as int) < probes);
                                assert(before.live(j) && before.keys@[j] != id);
                            } else {
                                assert(before.live(s));
                                assert(before.path_ok(s, j));
                                assert(before.live(j));
                                assert(j != i);
                            }
                        }
                    }
                    assert(self@ =~= before@.insert(id, 0)) by {
                        assert forall|x: u32| self.holds(x) == (before.holds(x) || x == id) by {
                            if self.holds(x) && x != id {
                                let s = choose|s: int| self.live(s) && self.keys@[s] == x;
                                assert(before.live(s) && before.keys@[s] == x);
                            }
                            if before.holds(x) {
                                let s = choose|s: int| before.live(s) && before.keys@[s] == x;
                                assert(self.live(s) && self.keys@[s] == x);
                            }
                        }
                        assert forall|x: u32| self.holds(x) implies #[trigger] self@[x]
                            == before@.insert(id, 0)[x] by {
                            let s = self.slot(x);
                            if x == id {
                                assert(s == i);
                            } else {
                                assert(before.live(s) && before.keys@[s] == x);
                                assert(before.holds(x));
                                assert(before.slot(x) == s);
                            }
                        }
                    }
                }
                return true;
            }
            if self.keys[i] == id {
                proof {
                    assert(self.live(i as int));
                    assert(self.holds(id));
                }
                return false;
            }
            proof {
                assert forall|j: int|
                    0 <= j < self.cap && dist(h as int, j, self.cap as int) < probes
                        + 1 implies self.live(j) && self.keys@[j] != id by {
                    if dist(h as int, j, self.cap as int) == probes {
                        assert(probes == dist(h as int, i as int, self.cap as int));
                        assert(j == i);
                        assert(self.tag@[i as int] == self.epoch);
                        assert(self.live(i as int));
                        assert(self.keys@[i as int] != id);
                    } else {
                        assert(dist(h as int, j, self.cap as int) < probes);
                        assert(self.live(j));
                        assert(self.keys@[j] != id);
                    }
                }
            }
            i = if i + 1 == self.cap {
                0
            } else {
                i + 1
            };
            probes = probes + 1;
        }
        proof {
            assert forall|s: int| 0 <= s < self.cap implies self.tag@[s] == self.epoch by {
                assert(dist(h as int, s, self.cap as int) < probes);
                assert(self.live(s));
            }
            lemma_all_live(self.tag@, self.epoch, self.cap as int);
            if self.holds(id) {
                let s = self.slot(id);
                assert(dist(h as int, s, self.cap as int) < probes);
            }
        }
        false
    }

    /// Stores `score` for `id`.
    pub fn set_score(&mut self, id: u32, score: u32)
        requires
            old(self).wf(),
            old(self)@.contains_key(id),
        ensures
            final(self).wf(),
            final(self).capacity() == old(self).capacity(),
            final(self)@ == old(self)@.insert(id, score),
            final(self).touched() == old(self).touched(),
    {
        let s = self.find(id);
        let ghost before = *self;
        self.vals[s] = score;
        proof {
            before.lemma_vals_changed(*self, s as int, id, score);
        }
    }

    /// Stores `score` for `id` when it is larger than the score held.
    pub fn update_max(&mut self, id: u32, score: u32)
        requires
            old(self).wf(),
            old(self)@.contains_key(id),
        ensures
            final(self).wf(),
            final(self).capacity() == old(self).capacity(),
            final(self)@ == old(self)@.insert(
                id,
                if score > old(self)@[id] {
                    score
                } else {
                    old(self)@[id]
                },
            ),
            final(self).touched() == old(self).touched(),
    {
        let s = self.find(id);
        let ghost before = *self;
        if score > self.vals[s] {
            self.vals[s] = score;
            proof {
                before.lemma_vals_changed(*self, s as int, id, score);
            }
        } else {
            proof {
                assert(self@ =~= before@.insert(id, before@[id]));
            }
        }
    }

    /// The score held for `id`.
    pub fn get_score(&self, id: u32) -> (score: u32)
        requires
            self.wf(),
            self@.contains_key(id),
        ensures
            score == self@[id],
    {
        let s = self.find(id);
        self.vals[s]
    }

    /// The ids touched in this epoch, in the order of their first touch.
    pub fn iter_touched(&self) -> (ids: &Vec<u32>)
        ensures
            ids@ == self.touched(),
    {
        &self.touched
    }

    proof fn lemma_vals_changed(self, after: Accum, s: int, id: u32, score: u32)
        requires
            self.wf(),
            self.live(s),
            self.keys@[s] == id,
            after.cap == self.cap,
            after.mask == self.mask,
            after.keys == self.keys,
            after.tag == self.tag,
            after.epoch == self.epoch,
            after.touched == self.touched,
            after.vals@ == self.vals@.update(s, score),
        ensures
            after.wf(),
            after@ == self@.insert(id, score),
    {
        assert(forall|x: int| after.live(x) == self.live(x));
        assert forall|x: u32| after.holds(x) == self.holds(x) by {
            if after.holds(x) {
                let t = choose|t: int| after.live(t) && after.keys@[t] == x;
                assert(self.live(t) && self.keys@[t] == x);
            }
            if self.holds(x) {
                let t = choose|t: int| self.live(t) && self.keys@[t] == x;
                assert(after.live(t) && after.keys@[t] == x);
            }
        }
        assert(self.holds(id));
        assert(after.wf()) by {
            assert forall|k: int| 0 <= k < after.touched@.len() implies after.holds(
                #[trigger] after.touched@[k],
            ) by {
                assert(self.holds(self.touched@[k]));
            }
            assert forall|x: int, j: int| #[trigger] after.path_ok(x, j) by {
                assert(self.path_ok(x, j));
            }
        }
        assert(after@ =~= self@.insert(id, score)) by {
            assert forall|x: u32| after.holds(x) implies #[trigger] after@[x] == self@.insert(
                id,
                score,
            )[x] by {
                let t = after.slot(x);
                assert(self.live(t) && self.keys@[t] == x);
                assert(self.slot(x) == t);
                if x == id {
                    assert(t == s);
                } else {
                    assert(t != s);
                }
            }
        }
    }
}

impl Default for Accum {
    /// A table of 2^20 slots.
    fn default() -> (a: Accum)
        ensures
            a.wf(),
            a.capacity() == 1048576,
            a@ == Map::<u32, u32>::empty(),
            a.touched() == Seq::<u32>::empty(),
    {
        assert(is_pow2(1048576usize)) by {
            assert(1048576u64 & 1048575u64 == 0) by (bit_vector);
        }
        Accum::with_capacity_pow2(1048576)
    }
}

} // verus!
