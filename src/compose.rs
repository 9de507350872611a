//! Composition of distributions: independent sums, dependent chains and
//! conditional weighting.
use vstd::prelude::*;
use crate::chance::Chance;
use crate::probability::Probability;
use crate::compress::{compress_fits, is_compression, is_distribution, valid_chances};
use crate::die::Die;

verus! {

/// The outcomes that follow `a`: each outcome of `b` with its chance
/// multiplied by that of `a`, and, where `additive`, its value moved by the
/// value of `a`.
pub open spec fn row(a: Probability, b: Seq<Probability>, additive: bool) -> Seq<Probability> {
    b.map_values(
        |p: Probability|
            Probability {
                value: if additive {
                    (a.value + p.value) as i32
                } else {
                    p.value
                },
                chance: Chance {
                    num: (a.chance.num * p.chance.num) as u64,
                    den: (a.chance.den * p.chance.den) as u64,
                },
            },
    )
}

/// The values and chances of `row(a, b, additive)` fit their types.
pub open spec fn row_fits(a: Probability, b: Seq<Probability>, additive: bool) -> bool {
    forall|j: int|
        0 <= j < b.len() ==> {
            &&& (additive ==> i32::MIN <= a.value + (#[trigger] b[j]).value <= i32::MAX)
            &&& a.chance.num * b[j].chance.num <= u64::MAX
            &&& a.chance.den * b[j].chance.den <= u64::MAX
        }
}

/// The outcomes that follow each outcome `a[i]` of a first distribution,
/// where `outs[i]` is the distribution that follows it, in order.
pub open spec fn chain_raw(a: Seq<Probability>, outs: Seq<Seq<Probability>>, additive: bool) -> Seq<Probability>
    decreases a.len(),
{
    if a.len() == 0 {
        Seq::empty()
    } else {
        chain_raw(a.drop_last(), outs, additive) + row(a.last(), outs[a.len() - 1], additive)
    }
}

/// Every row of the chain fits its types.
pub open spec fn chain_fits(a: Seq<Probability>, outs: Seq<Seq<Probability>>, additive: bool) -> bool {
    forall|i: int| 0 <= i < a.len() ==> row_fits(#[trigger] a[i], outs[i], additive)
}

/// `r` is the result of chaining `a` with the follow-ups `outs`: the
/// compression of the chained outcomes, present exactly where every value
/// and chance fits.
pub open spec fn chain_outcome(a: Seq<Probability>, outs: Seq<Seq<Probability>>, additive: bool, r: Option<Die>) -> bool {
    &&& (r is Some <==> chain_fits(a, outs, additive) && compress_fits(chain_raw(a, outs, additive)))
    &&& (r matches Some(d) ==> is_compression(d@, chain_raw(a, outs, additive)) && is_distribution(d@))
}

/// The same distribution `b` following each of `n` outcomes.
pub open spec fn repeat(b: Seq<Probability>, n: nat) -> Seq<Seq<Probability>> {
    Seq::new(n, |i: int| b)
}

/// The outcomes of each die.
pub open spec fn views(ds: Seq<Die>) -> Seq<Seq<Probability>> {
    ds.map_values(|d: Die| d@)
}

proof fn lemma_chain_step(a: Seq<Probability>, outs: Seq<Seq<Probability>>, additive: bool, i: int)
    requires
        0 <= i < a.len(),
    ensures
        chain_raw(a.take(i + 1), outs, additive) == chain_raw(a.take(i), outs, additive) + row(a[i], outs[i], additive),
{
    assert(a.take(i + 1).drop_last() =~= a.take(i));
}

/// Appends `row(a, b@, additive)` to `raw`; false where it does not fit.
fn push_row(raw: &mut Vec<Probability>, a: Probability, b: &Die, additive: bool) -> (r: bool)
    requires
        a.chance.den > 0,
        valid_chances(old(raw)@),
    ensures
        r <==> row_fits(a, b@, additive),
        r ==> final(raw)@ == old(raw)@ + row(a, b@, additive),
        r ==> valid_chances(final(raw)@),
        r ==> final(raw)@.len() > old(raw)@.len(),
{
    let bs = b.get_probabilities();
    let ghost start = raw@;
    let ghost whole = row(a, b@, additive);
    let mut j: usize = 0;
    while j < bs.len()
        invariant
            bs@ == b@,
            is_distribution(b@),
            a.chance.den > 0,
            j <= bs.len(),
            whole == row(a, b@, additive),
            raw@ == start + whole.take(j as int),
            valid_chances(start),
            valid_chances(raw@),
            forall|k: int| 0 <= k < j ==> {
                &&& (additive ==> i32::MIN <= a.value + (#[trigger] b@[k]).value <= i32::MAX)
                &&& a.chance.num * b@[k].chance.num <= u64::MAX
                &&& a.chance.den * b@[k].chance.den <= u64::MAX
            },
        decreases bs.len() - j,
    {
        let p = bs[j];
        let next = if additive {
            a.combine(&p)
        } else {
            match p.scale(&a.chance) {
                Some(q) => {
                    proof {
                        assert(q.chance.num == a.chance.num * p.chance.num) by (nonlinear_arith)
                            requires q.chance.num == p.chance.num * a.chance.num;
                        assert(q.chance.den == a.chance.den * p.chance.den) by (nonlinear_arith)
                            requires q.chance.den == p.chance.den * a.chance.den;
                    }
                    Some(q)
                },
                None => {
                    proof {
                        assert(a.chance.num * p.chance.num == p.chance.num * a.chance.num) by (nonlinear_arith);
                        assert(a.chance.den * p.chance.den == p.chance.den * a.chance.den) by (nonlinear_arith);
                    }
                    None
                },
            }
        };
        match next {
            Some(q) => {
                proof {
                    assert(p == b@[j as int]);
                    assert(p.chance.den > 0);
                    assert(q.chance.den > 0) by (nonlinear_arith)
                        requires
                            q.chance.den == a.chance.den * p.chance.den,
                            a.chance.den > 0,
                            p.chance.den > 0,
                    ;
                    assert(whole[j as int] == q);
                    assert(whole.take(j + 1) =~= whole.take(j as int).push(q));
                }
                raw.push(q);
                j = j + 1;
            },
            None => {
                proof {
                    assert(p == b@[j as int]);
                }
                return false;
            },
        }
    }
    assert(whole.take(j as int) =~= whole);
    true
}

impl Die {
    /// Chains this distribution with `follow_ups[i]` after its `i`-th
    /// outcome.
    fn chain_with(&self, follow_ups: &Vec<Die>, additive: bool) -> (r: Option<Die>)
        requires
            follow_ups@.len() == self@.len(),
        ensures
            chain_outcome(self@, views(follow_ups@), additive, r),
    {
        let probs = self.get_probabilities();
        let ghost a = self@;
        let ghost outs = views(follow_ups@);
        let mut raw: Vec<Probability> = Vec::new();
        let mut i: usize = 0;
        assert(a.take(0) =~= Seq::<Probability>::empty());
        while i < probs.len()
            invariant
                probs@ == a,
                a == self@,
                is_distribution(a),
                follow_ups@.len() == a.len(),
                outs == views(follow_ups@),
                i <= a.len(),
                raw@ == chain_raw(a.take(i as int), outs, additive),
                valid_chances(raw@),
                i > 0 ==> raw@.len() > 0,
                forall|k: int| 0 <= k < i ==> row_fits(#[trigger] a[k], outs[k], additive),
            decreases a.len() - i,
        {
            let p = probs[i];
            proof {
                assert(a[i as int].chance.den == a[0].chance.den);
                lemma_chain_step(a, outs, additive, i as int);
            }
            if !push_row(&mut raw, p, &follow_ups[i], additive) {
                proof {
                    assert(outs[i as int] == follow_ups@[i as int]@);
                    assert(!row_fits(a[i as int], outs[i as int], additive));
                    assert(!chain_fits(a, outs, additive));

                }
                return None;
            }
            proof {
                assert(outs[i as int] == follow_ups@[i as int]@);
            }
            i = i + 1;
        }
        assert(a.take(a.len() as int) =~= a);
        Die::from_probabilities(raw)
    }

    /// The sum of this distribution and an independent one: every pair of
    /// outcomes gives the sum of their values with the product of their
    /// chances, and the results are compressed.
    ///
    /// `None` exactly where a value or chance does not fit its type.
    pub fn add_independent(&self, probability_distribution: &Die) -> (r: Option<Die>)
        ensures
            chain_outcome(self@, repeat(probability_distribution@, self@.len()), true, r),
    {
        let probs = self.get_probabilities();
        let ghost a = self@;
        let ghost outs = repeat(probability_distribution@, self@.len());
        let mut raw: Vec<Probability> = Vec::new();
        let mut i: usize = 0;
        assert(a.take(0) =~= Seq::<Probability>::empty());
        while i < probs.len()
            invariant
                probs@ == a,
                a == self@,
                is_distribution(a),
                outs == repeat(probability_distribution@, a.len()),
                i <= a.len(),
                raw@ == chain_raw(a.take(i as int), outs, true),
                valid_chances(raw@),
                i > 0 ==> raw@.len() > 0,
                forall|k: int| 0 <= k < i ==> row_fits(#[trigger] a[k], outs[k], true),
            decreases a.len() - i,
        {
            let p = probs[i];
            proof {
                assert(a[i as int].chance.den == a[0].chance.den);
                lemma_chain_step(a, outs, true, i as int);
            }
            if !push_row(&mut raw, p, probability_distribution, true) {
                proof {
                    assert(outs[i as int] == probability_distribution@);
                    assert(!row_fits(a[i as int], outs[i as int], true));
                    assert(!chain_fits(a, outs, true));
                }
                return None;
            }
            proof {
                assert(outs[i as int] == probability_distribution@);
            }
            i = i + 1;
        }
        assert(a.take(a.len() as int) =~= a);
        Die::from_probabilities(raw)
    }

    /// Dependent chaining: after each outcome `a` the distribution
    /// `callback_fn(&a.value)` follows, and its values are added to that of
    /// `a`, its chances multiplied by that of `a`. The callback is called
    /// once for each outcome, in ascending order of value.
    ///
    /// `None` exactly where a value or chance does not fit its type.
    pub fn add_dependent<F: Fn(&i32) -> Die>(&self, callback_fn: &F) -> (r: Option<Die>)
        requires
            forall|v: i32| callback_fn.requires((&v,)),
        ensures
            exists|outs: Seq<Die>|
                {
                    &&& outs.len() == self@.len()
                    &&& forall|i: int| 0 <= i < outs.len() ==> callback_fn.ensures((&self@[i].value,), #[trigger] outs[i])
                    &&& chain_outcome(self@, views(outs), true, r)
                },
    {
        let follow_ups = self.follow_ups(callback_fn);
        let r = self.chain_with(&follow_ups, true);
        assert(chain_outcome(self@, views(follow_ups@), true, r));
        r
    }

    /// Conditional weighting: after each outcome `a` the distribution
    /// `callback_fn(&a.value)` follows, with its values kept and its chances
    /// multiplied by that of `a`. The callback is called once for each
    /// outcome, in ascending order of value.
    ///
    /// `None` exactly where a chance does not fit its type.
    pub fn conditional_chain<F: Fn(&i32) -> Die>(&self, callback_fn: &F) -> (r: Option<Die>)
        requires
            forall|v: i32| callback_fn.requires((&v,)),
        ensures
            exists|outs: Seq<Die>|
                {
                    &&& outs.len() == self@.len()
                    &&& forall|i: int| 0 <= i < outs.len() ==> callback_fn.ensures((&self@[i].value,), #[trigger] outs[i])
                    &&& chain_outcome(self@, views(outs), false, r)
                },
    {
        let follow_ups = self.follow_ups(callback_fn);
        let r = self.chain_with(&follow_ups, false);
        assert(chain_outcome(self@, views(follow_ups@), false, r));
        r
    }

    /// The distribution that the callback gives after each outcome.
    fn follow_ups<F: Fn(&i32) -> Die>(&self, callback_fn: &F) -> (r: Vec<Die>)
        requires
            forall|v: i32| callback_fn.requires((&v,)),
        ensures
            r@.len() == self@.len(),
            forall|i: int| 0 <= i < r@.len() ==> callback_fn.ensures((&self@[i].value,), #[trigger] r@[i]),
    {
        let probs = self.get_probabilities();
        let mut out: Vec<Die> = Vec::new();
        let mut i: usize = 0;
        while i < probs.len()
            invariant
                probs@ == self@,
                forall|v: i32| callback_fn.requires((&v,)),
                i <= probs@.len(),
                out@.len() == i,
                forall|k: int| 0 <= k < i ==> callback_fn.ensures((&self@[k].value,), #[trigger] out@[k]),
            decreases probs@.len() - i,
        {
            let d = callback_fn(&probs[i].value);
            out.push(d);
            i = i + 1;
        }
        out
    }
}

} // verus!
