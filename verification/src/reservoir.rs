//! Bounded staging reservoir for one time series.
//!
//! Offers are buffered in arrival order; a sampling pass (run at commit
//! time) merges them into the retained population. At most one sample is
//! retained per step, last write wins, the most recent offer is always
//! retained, and when the population exceeds the capacity a pseudo-randomly
//! chosen older sample is evicted. The retained population persists across
//! load cycles; each commit rewrites the sink from it.

use vstd::prelude::*;
use vstd::pervasive::VecAdditionalExecFns;
use crate::types::Step;

verus! {

/// Multiplier of the linear-congruential generator driving eviction.
pub const RNG_MULTIPLIER: u64 = 6364136223846793005;

/// Increment of the linear-congruential generator driving eviction.
pub const RNG_INCREMENT: u64 = 1442695040888963407;

/// Seed of the eviction generator in a fresh reservoir.
pub const RNG_SEED: u64 = 0;

/// The generator state following `r`.
pub open spec fn next_rng(r: u64) -> u64 {
    r.wrapping_mul(RNG_MULTIPLIER).wrapping_add(RNG_INCREMENT)
}

/// The (step, value) pairs of `s`, values taken to their views.
pub open spec fn pair_views<T: View>(s: Seq<(Step, T)>) -> Seq<(Step, T::V)> {
    s.map(|i: int, p: (Step, T)| (p.0, p.1@))
}

/// Steps strictly increase along `s`.
pub open spec fn sorted_by_step<VT>(s: Seq<(Step, VT)>) -> bool {
    forall|i: int, j: int| 0 <= i < j < s.len() ==> s[i].0.0 < s[j].0.0
}

/// Some pair of `s` carries step `step`.
pub open spec fn has_step<VT>(s: Seq<(Step, VT)>, step: i64) -> bool {
    exists|i: int| 0 <= i < s.len() && s[i].0.0 == step
}

/// `s` with `(step, v)` placed at its step-ordered position, replacing an
/// existing pair with the same step.
pub open spec fn put_sorted<VT>(s: Seq<(Step, VT)>, step: i64, v: VT) -> Seq<(Step, VT)>
    decreases s.len(),
{
    if s.len() == 0 {
        seq![(Step(step), v)]
    } else if s.last().0.0 < step {
        s.push((Step(step), v))
    } else if s.last().0.0 == step {
        s.drop_last().push((Step(step), v))
    } else {
        put_sorted(s.drop_last(), step, v).push(s.last())
    }
}

/// One offer merged into the retained population `acc` under capacity
/// `cap`: replace at an existing step, insert while there is room, and
/// otherwise evict the sample the generator picks before inserting.
pub open spec fn sample_one<VT>(cap: int, acc: Seq<(Step, VT)>, rng: u64, step: i64, v: VT) -> (
    Seq<(Step, VT)>,
    u64,
) {
    if has_step(acc, step) {
        (put_sorted(acc, step, v), rng)
    } else if cap <= 0 {
        (acc, rng)
    } else if acc.len() < cap {
        (put_sorted(acc, step, v), rng)
    } else {
        let r2 = next_rng(rng);
        let j = (r2 as int) % (acc.len() as int);
        (put_sorted(acc.remove(j), step, v), r2)
    }
}

/// A whole stage buffer merged into `acc`, offers taken in order.
pub open spec fn sample_seq<VT>(
    cap: int,
    acc: Seq<(Step, VT)>,
    rng: u64,
    offers: Seq<(Step, VT)>,
) -> (Seq<(Step, VT)>, u64)
    decreases offers.len(),
{
    if offers.len() == 0 {
        (acc, rng)
    } else {
        let merged = sample_one(cap, acc, rng, offers[0].0.0, offers[0].1);
        sample_seq(cap, merged.0, merged.1, offers.skip(1))
    }
}

/// The eviction-free merge: every offer placed, none sampled out.
pub open spec fn dedup_sample<VT>(acc: Seq<(Step, VT)>, offers: Seq<(Step, VT)>) -> Seq<
    (Step, VT),
>
    decreases offers.len(),
{
    if offers.len() == 0 {
        acc
    } else {
        dedup_sample(put_sorted(acc, offers[0].0.0, offers[0].1), offers.skip(1))
    }
}

/// The value retained at `step`, if any.
pub open spec fn lookup_step<VT>(s: Seq<(Step, VT)>, step: i64) -> Option<VT>
    decreases s.len(),
{
    if s.len() == 0 {
        Option::None
    } else if s.last().0.0 == step {
        Option::Some(s.last().1)
    } else {
        lookup_step(s.drop_last(), step)
    }
}

/// The value of the last offer at `step`, if any offer carries that step.
pub open spec fn last_offer_at<VT>(offers: Seq<(Step, VT)>, step: i64) -> Option<VT>
    decreases offers.len(),
{
    if offers.len() == 0 {
        Option::None
    } else {
        let rest = last_offer_at(offers.skip(1), step);
        if rest is Some {
            rest
        } else if offers[0].0.0 == step {
            Option::Some(offers[0].1)
        } else {
            Option::None
        }
    }
}

pub proof fn lemma_sorted_drop_last<VT>(s: Seq<(Step, VT)>)
    requires
        s.len() > 0,
        sorted_by_step(s),
    ensures
        sorted_by_step(s.drop_last()),
{
    assert forall|i: int, j: int|
        0 <= i < j < s.drop_last().len() implies s.drop_last()[i].0.0 < s.drop_last()[j].0.0 by {
        assert(s[i].0.0 < s[j].0.0);
    }
}

/// `put_sorted` keeps steps strictly increasing.
pub proof fn lemma_put_sorted_sorted<VT>(s: Seq<(Step, VT)>, step: i64, v: VT)
    requires
        sorted_by_step(s),
    ensures
        sorted_by_step(put_sorted(s, step, v)),
    decreases s.len(),
{
    if s.len() == 0 {
    } else if s.last().0.0 < step {
        let r = s.push((Step(step), v));
        assert forall|i: int, j: int| 0 <= i < j < r.len() implies r[i].0.0 < r[j].0.0 by {
            if j < s.len() {
                assert(s[i].0.0 < s[j].0.0);
            } else if i < s.len() - 1 {
                assert(s[i].0.0 < s[s.len() - 1].0.0);
            }
        }
    } else if s.last().0.0 == step {
        let r = s.drop_last().push((Step(step), v));
        assert forall|i: int, j: int| 0 <= i < j < r.len() implies r[i].0.0 < r[j].0.0 by {
            if j < s.len() - 1 {
                assert(s[i].0.0 < s[j].0.0);
            } else {
                assert(s[i].0.0 < s[s.len() - 1].0.0);
            }
        }
    } else {
        lemma_sorted_drop_last(s);
        lemma_put_sorted_sorted(s.drop_last(), step, v);
        lemma_put_sorted_membership(s.drop_last(), step, v);
        let inner = put_sorted(s.drop_last(), step, v);
        let r = inner.push(s.last());
        assert forall|i: int, j: int| 0 <= i < j < r.len() implies r[i].0.0 < r[j].0.0 by {
            if j == inner.len() {
                assert(r[j] == s.last());
                assert(r[i] == inner[i]);
                // every step in `inner` is below the dropped last step
            }
        }
    }
}

/// Every step in `put_sorted(s, step, v)` is `step` or a step of `s`.
pub proof fn lemma_put_sorted_membership<VT>(s: Seq<(Step, VT)>, step: i64, v: VT)
    ensures
        forall|k: int|
            0 <= k < put_sorted(s, step, v).len() ==> (#[trigger] put_sorted(s, step, v)[k]).0.0
                == step || has_step(s, put_sorted(s, step, v)[k].0.0),
    decreases s.len(),
{
    let r = put_sorted(s, step, v);
    if s.len() == 0 {
    } else if s.last().0.0 < step || s.last().0.0 == step {
        assert forall|k: int| 0 <= k < r.len() implies r[k].0.0 == step || has_step(s, r[k].0.0) by {
            if k < s.len() && r[k].0.0 != step {
                assert(s[k].0.0 == r[k].0.0);
            }
        }
    } else {
        lemma_put_sorted_membership(s.drop_last(), step, v);
        let inner = put_sorted(s.drop_last(), step, v);
        assert forall|k: int| 0 <= k < r.len() implies r[k].0.0 == step || has_step(s, r[k].0.0) by {
            if k < inner.len() {
                assert(inner[k].0.0 == step || has_step(s.drop_last(), inner[k].0.0));
                if has_step(s.drop_last(), inner[k].0.0) {
                    let w = choose|w: int|
                        0 <= w < s.drop_last().len() && s.drop_last()[w].0.0 == inner[k].0.0;
                    assert(s[w].0.0 == inner[k].0.0);
                }
            } else {
                assert(r[k] == s.last());
                assert(s[s.len() - 1].0.0 == r[k].0.0);
            }
        }
    }
}

/// Placing a pair grows the population exactly when its step is new.
pub proof fn lemma_put_sorted_len<VT>(s: Seq<(Step, VT)>, step: i64, v: VT)
    requires
        sorted_by_step(s),
    ensures
        put_sorted(s, step, v).len() == if has_step(s, step) {
            s.len()
        } else {
            s.len() + 1
        },
    decreases s.len(),
{
    if s.len() == 0 {
    } else if s.last().0.0 < step {
        assert forall|i: int| 0 <= i < s.len() implies s[i].0.0 != step by {
            if i < s.len() - 1 {
                assert(s[i].0.0 < s[s.len() - 1].0.0);
            }
        }
    } else if s.last().0.0 == step {
        assert(has_step(s, step));
    } else {
        lemma_sorted_drop_last(s);
        lemma_put_sorted_len(s.drop_last(), step, v);
        if has_step(s, step) {
            let w = choose|w: int| 0 <= w < s.len() && s[w].0.0 == step;
            assert(w != s.len() - 1);
            assert(s.drop_last()[w].0.0 == step);
        }
        if has_step(s.drop_last(), step) {
            let w = choose|w: int| 0 <= w < s.len() - 1 && s.drop_last()[w].0.0 == step;
            assert(s[w].0.0 == step);
        }
    }
}

/// Replacing at an existing step is a positional update.
pub proof fn lemma_put_sorted_replace<VT>(s: Seq<(Step, VT)>, step: i64, v: VT, i: int)
    requires
        sorted_by_step(s),
        0 <= i < s.len(),
        s[i].0.0 == step,
    ensures
        put_sorted(s, step, v) == s.update(i, (Step(step), v)),
    decreases s.len(),
{
    if i == s.len() - 1 {
        assert(s.last().0.0 == step);
        assert(s.drop_last().push((Step(step), v)) =~= s.update(i, (Step(step), v)));
    } else {
        assert(s[i].0.0 < s[s.len() - 1].0.0);
        lemma_sorted_drop_last(s);
        assert(s.drop_last()[i].0.0 == step);
        lemma_put_sorted_replace(s.drop_last(), step, v, i);
        assert(s.drop_last().update(i, (Step(step), v)).push(s.last()) =~= s.update(
            i,
            (Step(step), v),
        ));
    }
}

/// Placing a new step is a positional insertion.
pub proof fn lemma_put_sorted_insert<VT>(s: Seq<(Step, VT)>, step: i64, v: VT, pos: int)
    requires
        sorted_by_step(s),
        0 <= pos <= s.len(),
        forall|j: int| 0 <= j < pos ==> s[j].0.0 < step,
        forall|j: int| pos <= j < s.len() ==> s[j].0.0 > step,
    ensures
        put_sorted(s, step, v) == s.insert(pos, (Step(step), v)),
    decreases s.len(),
{
    if s.len() == 0 {
        assert(seq![(Step(step), v)] =~= s.insert(0, (Step(step), v)));
    } else if pos == s.len() {
        assert(s.last().0.0 < step);
        assert(s.push((Step(step), v)) =~= s.insert(pos, (Step(step), v)));
    } else {
        assert(s[s.len() - 1].0.0 > step);
        lemma_sorted_drop_last(s);
        lemma_put_sorted_insert(s.drop_last(), step, v, pos);
        assert(s.drop_last().insert(pos, (Step(step), v)).push(s.last()) =~= s.insert(
            pos,
            (Step(step), v),
        ));
    }
}

/// Merging offer batches in turn equals merging their concatenation.
pub proof fn lemma_sample_seq_append<VT>(
    cap: int,
    acc: Seq<(Step, VT)>,
    rng: u64,
    s1: Seq<(Step, VT)>,
    s2: Seq<(Step, VT)>,
)
    ensures
        sample_seq(cap, acc, rng, s1 + s2).0 == sample_seq(
            cap,
            sample_seq(cap, acc, rng, s1).0,
            sample_seq(cap, acc, rng, s1).1,
            s2,
        ).0,
        sample_seq(cap, acc, rng, s1 + s2).1 == sample_seq(
            cap,
            sample_seq(cap, acc, rng, s1).0,
            sample_seq(cap, acc, rng, s1).1,
            s2,
        ).1,
    decreases s1.len(),
{
    if s1.len() == 0 {
        assert(s1 + s2 =~= s2);
    } else {
        let both = s1 + s2;
        assert(both[0] == s1[0]);
        let merged = sample_one(cap, acc, rng, s1[0].0.0, s1[0].1);
        assert(both.skip(1) =~= s1.skip(1) + s2);
        lemma_sample_seq_append(cap, merged.0, merged.1, s1.skip(1), s2);
    }
}

/// While the population stays within capacity, merging never evicts: it is
/// the plain step-keyed merge, and the generator does not advance.
pub proof fn lemma_sample_seq_no_evict<VT>(
    cap: int,
    acc: Seq<(Step, VT)>,
    rng: u64,
    offers: Seq<(Step, VT)>,
)
    requires
        sorted_by_step(acc),
        acc.len() + offers.len() <= cap,
    ensures
        sample_seq(cap, acc, rng, offers).0 == dedup_sample(acc, offers),
        sample_seq(cap, acc, rng, offers).1 == rng,
    decreases offers.len(),
{
    if offers.len() == 0 {
    } else {
        let step = offers[0].0.0;
        let v = offers[0].1;
        lemma_put_sorted_len(acc, step, v);
        lemma_put_sorted_sorted(acc, step, v);
        lemma_sample_seq_no_evict(cap, put_sorted(acc, step, v), rng, offers.skip(1));
    }
}

/// Looking up a step after a placement: the placed step answers with the
/// new value, every other step as before.
pub proof fn lemma_put_sorted_lookup<VT>(s: Seq<(Step, VT)>, step: i64, v: VT, q: i64)
    requires
        sorted_by_step(s),
    ensures
        lookup_step(put_sorted(s, step, v), q) == if q == step {
            Option::Some(v)
        } else {
            lookup_step(s, q)
        },
    decreases s.len(),
{
    if s.len() == 0 {
        let r = seq![(Step(step), v)];
        assert(r.last() == (Step(step), v));
        assert(r.drop_last() =~= Seq::<(Step, VT)>::empty());
        assert(put_sorted(s, step, v) == r);
        assert(r.len() == 1);
        assert(lookup_step(r.drop_last(), q) == Option::<VT>::None);
        assert(lookup_step(s, q) == Option::<VT>::None);
        assert(lookup_step(r, q) == if q == step { Option::Some(v) } else { lookup_step(s, q) });
    } else if s.last().0.0 < step {
        let r = s.push((Step(step), v));
        assert(r.last() == (Step(step), v));
        assert(r.drop_last() =~= s);
        assert(put_sorted(s, step, v) == r);
        assert(lookup_step(r, q) == if q == step { Option::Some(v) } else { lookup_step(s, q) });
    } else if s.last().0.0 == step {
        let r = s.drop_last().push((Step(step), v));
        assert(r.last() == (Step(step), v));
        assert(r.drop_last() =~= s.drop_last());
        assert(put_sorted(s, step, v) == r);
        assert(lookup_step(r, q) == if q == step { Option::Some(v) } else { lookup_step(s, q) });
    } else {
        lemma_sorted_drop_last(s);
        lemma_put_sorted_lookup(s.drop_last(), step, v, q);
        let inner = put_sorted(s.drop_last(), step, v);
        let r = inner.push(s.last());
        assert(r.drop_last() =~= inner);
        assert(r.last() == s.last());
        assert(put_sorted(s, step, v) == r);
        assert(lookup_step(r, q) == if q == step { Option::Some(v) } else { lookup_step(s, q) });
    }
}

/// Last write wins: after an eviction-free merge, the value retained at a
/// step is the last offer at that step, or the prior retained value where
/// no offer carried the step.
pub proof fn lemma_dedup_lookup<VT>(acc: Seq<(Step, VT)>, offers: Seq<(Step, VT)>, q: i64)
    requires
        sorted_by_step(acc),
    ensures
        lookup_step(dedup_sample(acc, offers), q) == match last_offer_at(offers, q) {
            Option::Some(v) => Option::Some(v),
            Option::None => lookup_step(acc, q),
        },
    decreases offers.len(),
{
    if offers.len() == 0 {
    } else {
        let step = offers[0].0.0;
        let v = offers[0].1;
        lemma_put_sorted_sorted(acc, step, v);
        lemma_put_sorted_lookup(acc, step, v, q);
        lemma_dedup_lookup(put_sorted(acc, step, v), offers.skip(1), q);
    }
}


/// Merging keeps steps strictly increasing.
pub proof fn lemma_sample_seq_sorted<VT>(
    cap: int,
    acc: Seq<(Step, VT)>,
    rng: u64,
    offers: Seq<(Step, VT)>,
)
    requires
        sorted_by_step(acc),
    ensures
        sorted_by_step(sample_seq(cap, acc, rng, offers).0),
    decreases offers.len(),
{
    if offers.len() == 0 {
    } else {
        let step = offers[0].0.0;
        let v = offers[0].1;
        let merged = sample_one(cap, acc, rng, step, v);
        if has_step(acc, step) || (cap > 0 && acc.len() < cap) {
            lemma_put_sorted_sorted(acc, step, v);
        } else if cap > 0 {
            let r2 = next_rng(rng);
            let j = (r2 as int) % (acc.len() as int);
            let shrunk = acc.remove(j);
            assert forall|a: int, b: int|
                0 <= a < b < shrunk.len() implies shrunk[a].0.0 < shrunk[b].0.0 by {
                if b < j {
                    assert(acc[a].0.0 < acc[b].0.0);
                } else if a < j {
                    assert(acc[a].0.0 < acc[b + 1].0.0);
                } else {
                    assert(acc[a + 1].0.0 < acc[b + 1].0.0);
                }
            }
            lemma_put_sorted_sorted(shrunk, step, v);
        }
        lemma_sample_seq_sorted(cap, merged.0, merged.1, offers.skip(1));
    }
}

/// The preemption anchor: whatever the sampling pass evicts, the most
/// recent offer is always retained.
#[verifier::rlimit(100)]
pub proof fn lemma_most_recent_offer_retained<VT>(
    cap: int,
    acc: Seq<(Step, VT)>,
    rng: u64,
    offers: Seq<(Step, VT)>,
)
    requires
        cap > 0,
        sorted_by_step(acc),
        offers.len() > 0,
    ensures
        lookup_step(sample_seq(cap, acc, rng, offers).0, offers.last().0.0) == Option::Some(
            offers.last().1,
        ),
{
    let init = offers.drop_last();
    let last = offers.last();
    assert(init + seq![last] =~= offers);
    lemma_sample_seq_append(cap, acc, rng, init, seq![last]);
    let mid = sample_seq(cap, acc, rng, init);
    lemma_sample_seq_sorted(cap, acc, rng, init);
    assert(seq![last][0] == last);
    assert(seq![last].skip(1) =~= Seq::<(Step, VT)>::empty());
    let step = last.0.0;
    let v = last.1;
    let one = sample_one(cap, mid.0, mid.1, step, v);
    assert(seq![last].len() == 1);
    assert(sample_seq(cap, one.0, one.1, Seq::<(Step, VT)>::empty()).0 == one.0);
    assert(sample_seq(cap, mid.0, mid.1, seq![last]).0 == sample_seq(
        cap,
        sample_one(cap, mid.0, mid.1, seq![last][0].0.0, seq![last][0].1).0,
        sample_one(cap, mid.0, mid.1, seq![last][0].0.0, seq![last][0].1).1,
        seq![last].skip(1),
    ).0);
    assert(sample_seq(cap, mid.0, mid.1, seq![last]).0 == one.0);
    assert(sample_seq(cap, acc, rng, offers).0 == one.0);
    if has_step(mid.0, step) || mid.0.len() < cap {
        lemma_put_sorted_lookup(mid.0, step, v, step);
    } else {
        let r2 = next_rng(mid.1);
        let j = (r2 as int) % (mid.0.len() as int);
        let shrunk = mid.0.remove(j);
        assert forall|a: int, b: int|
            0 <= a < b < shrunk.len() implies shrunk[a].0.0 < shrunk[b].0.0 by {
            if b < j {
                assert(mid.0[a].0.0 < mid.0[b].0.0);
            } else if a < j {
                assert(mid.0[a].0.0 < mid.0[b + 1].0.0);
            } else {
                assert(mid.0[a + 1].0.0 < mid.0[b + 1].0.0);
            }
        }
        lemma_put_sorted_lookup(shrunk, step, v, step);
    }
}

/// A staging reservoir: the retained population (step-ordered), the stage
/// buffer of offers not yet merged, and the eviction generator state.
#[derive(Debug)]
pub struct StageReservoir<T: View> {
    capacity: usize,
    items: Vec<(Step, T)>,
    staged: Vec<(Step, T)>,
    rng: u64,
}

#[verifier::ext_equal]
pub struct ReservoirView<VT> {
    pub capacity: int,
    pub retained: Seq<(Step, VT)>,
    pub staged: Seq<(Step, VT)>,
    pub rng: u64,
}

impl<T: View> View for StageReservoir<T> {
    type V = ReservoirView<T::V>;

    closed spec fn view(&self) -> ReservoirView<T::V> {
        ReservoirView {
            capacity: self.capacity as int,
            retained: pair_views(self.items@),
            staged: pair_views(self.staged@),
            rng: self.rng,
        }
    }
}

impl<T: View> StageReservoir<T> {
    /// The retained population is step-ordered and within capacity.
    pub open spec fn well_formed(&self) -> bool {
        &&& sorted_by_step(self@.retained)
        &&& self@.retained.len() <= self@.capacity
    }

    /// An empty reservoir of the given capacity.
    pub fn new(capacity: usize) -> (r: Self)
        ensures
            r.well_formed(),
            r@.capacity == capacity as int,
            r@.retained == Seq::<(Step, T::V)>::empty(),
            r@.staged == Seq::<(Step, T::V)>::empty(),
            r@.rng == RNG_SEED,
    {
        let r = StageReservoir { capacity, items: Vec::new(), staged: Vec::new(), rng: RNG_SEED };
        proof {
            assert(r@.retained =~= Seq::<(Step, T::V)>::empty());
            assert(r@.staged =~= Seq::<(Step, T::V)>::empty());
        }
        r
    }

    /// Appends one offer to the stage buffer; no sampling decision is made
    /// yet.
    pub fn offer(&mut self, step: Step, value: T)
        ensures
            final(self)@.capacity == old(self)@.capacity,
            final(self)@.retained == old(self)@.retained,
            final(self)@.rng == old(self)@.rng,
            final(self)@.staged == old(self)@.staged.push((step, value@)),
            old(self).well_formed() ==> final(self).well_formed(),
    {
        let ghost staged0 = self@.staged;
        self.staged.push((step, value));
        proof {
            assert(self@.staged =~= staged0.push((step, value@)));
        }
    }

    /// The retained population, in step order.
    pub fn retained(&self) -> (r: &Vec<(Step, T)>)
        ensures
            pair_views(r@) == self@.retained,
    {
        &self.items
    }

    /// The index of the retained pair carrying `step`, if one does.
    fn find_step_index(&self, step: i64) -> (r: Option<usize>)
        ensures
            match r {
                Option::Some(i) => i < self@.retained.len() && self@.retained[i as int].0.0
                    == step,
                Option::None => !has_step(self@.retained, step),
            },
    {
        let mut i: usize = 0;
        while i < self.items.len()
            invariant
                i <= self@.retained.len(),
                forall|j: int| 0 <= j < i ==> self@.retained[j].0.0 != step,
            decreases self.items.len() - i,
        {
            if self.items[i].0.0 == step {
                proof {
                    assert(self@.retained[i as int] == (self.items@[i as int].0, self.items@[i as int].1@));
                }
                return Option::Some(i);
            }
            i += 1;
        }
        Option::None
    }

    /// The step-ordered position at which a new pair with `step` belongs.
    fn find_insert_pos(&self, step: i64) -> (pos: usize)
        requires
            sorted_by_step(self@.retained),
        ensures
            pos <= self@.retained.len(),
            forall|j: int| 0 <= j < pos ==> self@.retained[j].0.0 < step,
            pos < self@.retained.len() ==> self@.retained[pos as int].0.0 >= step,
    {
        let mut pos: usize = 0;
        while pos < self.items.len()
            invariant
                pos <= self@.retained.len(),
                forall|j: int| 0 <= j < pos ==> self@.retained[j].0.0 < step,
            decreases self.items.len() - pos,
        {
            if self.items[pos].0.0 >= step {
                proof {
                    assert(self@.retained[pos as int] == (self.items@[pos as int].0, self.items@[pos as int].1@));
                }
                return pos;
            }
            proof {
                assert(self@.retained[pos as int] == (self.items@[pos as int].0, self.items@[pos as int].1@));
            }
            pos += 1;
        }
        pos
    }

    /// Merges one offer into the retained population, as `sample_one` says.
    fn put(&mut self, step: Step, value: T)
        requires
            old(self).well_formed(),
        ensures
            final(self).well_formed(),
            final(self)@.capacity == old(self)@.capacity,
            final(self)@.staged == old(self)@.staged,
            final(self)@.retained == sample_one(
                old(self)@.capacity,
                old(self)@.retained,
                old(self)@.rng,
                step.0,
                value@,
            ).0,
            final(self)@.rng == sample_one(
                old(self)@.capacity,
                old(self)@.retained,
                old(self)@.rng,
                step.0,
                value@,
            ).1,
    {
        let ghost acc0 = self@.retained;
        let ghost cap = self@.capacity;
        match self.find_step_index(step.0) {
            Option::Some(i) => {
                self.items.set(i, (step, value));
                proof {
                    lemma_put_sorted_replace(acc0, step.0, value@, i as int);
                    assert(self@.retained =~= acc0.update(i as int, (step, value@)));
                    lemma_put_sorted_sorted(acc0, step.0, value@);
                    assert(self@.staged =~= old(self)@.staged);
                }
            },
            Option::None => {
                if self.capacity == 0 {
                    proof {
                        assert(self@.retained =~= acc0);
                        assert(self@.staged =~= old(self)@.staged);
                    }
                    return;
                }
                if self.items.len() == self.capacity {
                    let r2 = self.rng.wrapping_mul(RNG_MULTIPLIER).wrapping_add(RNG_INCREMENT);
                    self.rng = r2;
                    let j = (r2 % (self.items.len() as u64)) as usize;
                    proof {
                        assert(j as int == (r2 as int) % (acc0.len() as int));
                    }
                    self.items.remove(j);
                    proof {
                        assert(pair_views(self.items@) =~= acc0.remove(j as int));
                        assert forall|a: int, b: int|
                            0 <= a < b < self@.retained.len() implies self@.retained[a].0.0
                            < self@.retained[b].0.0 by {
                            if b < j {
                                assert(acc0[a].0.0 < acc0[b].0.0);
                            } else if a < j {
                                assert(acc0[a].0.0 < acc0[b + 1].0.0);
                            } else {
                                assert(acc0[a + 1].0.0 < acc0[b + 1].0.0);
                            }
                        }
                        assert forall|k: int|
                            0 <= k < self@.retained.len() implies self@.retained[k].0.0
                            != step.0 by {
                            if k < j {
                                assert(acc0[k].0.0 != step.0);
                            } else {
                                assert(acc0[k + 1].0.0 != step.0);
                            }
                        }
                    }
                }
                let ghost base = self@.retained;
                let pos = self.find_insert_pos(step.0);
                proof {
                    assert forall|j2: int|
                        pos <= j2 < base.len() implies base[j2].0.0 > step.0 by {
                        if j2 > pos {
                            assert(base[pos as int].0.0 < base[j2].0.0);
                        }
                    }
                }
                self.items.insert(pos, (step, value));
                proof {
                    lemma_put_sorted_insert(base, step.0, value@, pos as int);
                    assert(self@.retained =~= base.insert(pos as int, (step, value@)));
                    lemma_put_sorted_sorted(base, step.0, value@);
                    lemma_put_sorted_len(base, step.0, value@);
                    assert(self@.staged =~= old(self)@.staged);
                }
            },
        }
    }

    /// Runs the sampling pass: drains the stage buffer into the retained
    /// population, in offer order.
    pub fn commit(&mut self)
        requires
            old(self).well_formed(),
        ensures
            final(self).well_formed(),
            final(self)@.capacity == old(self)@.capacity,
            final(self)@.staged.len() == 0,
            final(self)@.retained == sample_seq(
                old(self)@.capacity,
                old(self)@.retained,
                old(self)@.rng,
                old(self)@.staged,
            ).0,
            final(self)@.rng == sample_seq(
                old(self)@.capacity,
                old(self)@.retained,
                old(self)@.rng,
                old(self)@.staged,
            ).1,
    {
        let ghost cap = self@.capacity;
        let ghost goal = sample_seq(cap, self@.retained, self@.rng, self@.staged);
        while self.staged.len() > 0
            invariant
                self.well_formed(),
                self@.capacity == cap,
                goal == sample_seq(cap, self@.retained, self@.rng, self@.staged),
            decreases self.staged.len(),
        {
            let ghost staged_before = self@.staged;
            let p = self.staged.remove(0);
            proof {
                assert(self@.staged =~= staged_before.skip(1));
                assert((p.0, p.1@) == staged_before[0]);
            }
            self.put(p.0, p.1);
        }
        proof {
            assert(self@.staged.len() == 0);
        }
    }
}

} // verus!
