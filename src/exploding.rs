//! One level of explosion: after an outcome that meets a condition, a
//! further distribution is rolled and added.
use vstd::prelude::*;
use crate::probability::Probability;
use crate::compress::valid_chances;
use crate::compose::{chain_outcome, views};
use crate::die::{Die, built, built_fits, neutral, range_of, sided, uniform};

verus! {

/// How an outcome is compared with the threshold.
#[derive(Clone, Copy, Debug, PartialEq, Eq, Structural)]
pub enum ExplodingCondition {
    /// Explodes on values lower than the threshold.
    Lower,
    /// Explodes on values lower than or equal to the threshold.
    LowerOrEqual,
    /// Explodes on values equal to the threshold.
    Equal,
    /// Explodes on values greater than or equal to the threshold.
    GreaterOrEqual,
    /// Explodes on values greater than the threshold.
    Greater,
}

/// Whether `value` meets `condition` against `threshold`.
pub open spec fn explodes(condition: ExplodingCondition, value: int, threshold: int) -> bool {
    match condition {
        ExplodingCondition::Lower => value < threshold,
        ExplodingCondition::LowerOrEqual => value <= threshold,
        ExplodingCondition::Equal => value == threshold,
        ExplodingCondition::GreaterOrEqual => value >= threshold,
        ExplodingCondition::Greater => value > threshold,
    }
}

/// What follows `value`: the explosion where it meets the condition, the
/// neutral distribution otherwise.
pub open spec fn explosion_branch(
    value: int,
    threshold: int,
    condition: ExplodingCondition,
    explosion: Seq<Probability>,
) -> Seq<Probability> {
    if explodes(condition, value, threshold) {
        explosion
    } else {
        neutral()
    }
}

/// What follows each outcome of `base`.
pub open spec fn explosion_follow_ups(
    base: Seq<Probability>,
    threshold: int,
    condition: ExplodingCondition,
    explosion: Seq<Probability>,
) -> Seq<Seq<Probability>> {
    Seq::new(base.len(), |i: int| explosion_branch(base[i].value as int, threshold, condition, explosion))
}

impl ExplodingCondition {
    /// Whether `value` meets this condition against `threshold`.
    pub fn holds(&self, value: i32, threshold: i32) -> (r: bool)
        ensures
            r == explodes(*self, value as int, threshold as int),
    {
        match self {
            ExplodingCondition::Lower => value < threshold,
            ExplodingCondition::LowerOrEqual => value <= threshold,
            ExplodingCondition::Equal => value == threshold,
            ExplodingCondition::GreaterOrEqual => value >= threshold,
            ExplodingCondition::Greater => value > threshold,
        }
    }
}

/// What follows `value`: a copy of `exploding` where `value` meets the
/// condition against `exploding_range`, the neutral distribution otherwise.
pub fn exploding_helper(
    exploding_range: i32,
    exploding_condition: ExplodingCondition,
    exploding: &Die,
    value: i32,
) -> (r: Die)
    ensures
        r@ == explosion_branch(value as int, exploding_range as int, exploding_condition, exploding@),
{
    if exploding_condition.holds(value, exploding_range) {
        exploding.clone()
    } else {
        Die::empty()
    }
}

/// `base` with one level of explosion.
fn explode(base: &Die, exploding_range: i32, exploding_condition: ExplodingCondition, exploding: &Die) -> (r: Option<Die>)
    ensures
        chain_outcome(base@, explosion_follow_ups(base@, exploding_range as int, exploding_condition, exploding@), true, r),
{
    let branch = |v: &i32| -> (d: Die)
        ensures
            d@ == explosion_branch(*v as int, exploding_range as int, exploding_condition, exploding@),
        { exploding_helper(exploding_range, exploding_condition, exploding, *v) };
    let r = base.add_dependent(&branch);
    proof {
        let want = explosion_follow_ups(base@, exploding_range as int, exploding_condition, exploding@);
        let outs = choose|outs: Seq<Die>|
            {
                &&& outs.len() == base@.len()
                &&& forall|i: int| 0 <= i < outs.len() ==> branch.ensures((&base@[i].value,), #[trigger] outs[i])
                &&& chain_outcome(base@, views(outs), true, r)
            };
        assert forall|i: int| 0 <= i < outs.len() implies #[trigger] views(outs)[i] == want[i] by {
            assert(branch.ensures((&base@[i].value,), outs[i]));
        }
        assert(views(outs) =~= want);
    }
    r
}

impl Die {
    /// A die of `sides` sides (see [`Die::new`]) that explodes once: after
    /// a value that meets `exploding_condition` against `exploding_range`,
    /// `exploding` is rolled and added.
    pub fn new_exploding(
        sides: i32,
        exploding_range: i32,
        exploding_condition: ExplodingCondition,
        exploding: Die,
    ) -> (r: Option<Die>)
        ensures
            chain_outcome(sided(sides as int), explosion_follow_ups(sided(sides as int), exploding_range as int, exploding_condition, exploding@), true, r),
    {
        explode(&Die::new(sides), exploding_range, exploding_condition, &exploding)
    }

    /// The range `start..=end` (see [`Die::from_range`]), exploding once.
    pub fn exploding_from_range(
        start: i32,
        end: i32,
        exploding_range: i32,
        exploding_condition: ExplodingCondition,
        exploding: Die,
    ) -> (r: Option<Die>)
        ensures
            chain_outcome(range_of(start as int, end as int), explosion_follow_ups(range_of(start as int, end as int), exploding_range as int, exploding_condition, exploding@), true, r),
    {
        explode(&Die::from_range(start, end), exploding_range, exploding_condition, &exploding)
    }

    /// The values with equal chances (see [`Die::from_values`]), exploding
    /// once.
    pub fn exploding_from_values(
        values: &[i32],
        exploding_range: i32,
        exploding_condition: ExplodingCondition,
        exploding: Die,
    ) -> (r: Option<Die>)
        ensures
            exists|x: Seq<Probability>|
                built(uniform(values@), x) && chain_outcome(x, explosion_follow_ups(x, exploding_range as int, exploding_condition, exploding@), true, r),
    {
        let base = Die::from_values(values);
        let r = explode(&base, exploding_range, exploding_condition, &exploding);
        assert(built(uniform(values@), base@));
        r
    }

    /// The distribution of the outcomes (see [`Die::from_probabilities`]),
    /// exploding once; `None` where that distribution does not fit.
    pub fn exploding_from_probabilities(
        probabilities: Vec<Probability>,
        exploding_range: i32,
        exploding_condition: ExplodingCondition,
        exploding: Die,
    ) -> (r: Option<Die>)
        requires
            valid_chances(probabilities@),
        ensures
            !built_fits(probabilities@) ==> r is None,
            built_fits(probabilities@) ==> exists|x: Seq<Probability>|
                built(probabilities@, x) && chain_outcome(x, explosion_follow_ups(x, exploding_range as int, exploding_condition, exploding@), true, r),
    {
        let ghost p = probabilities@;
        match Die::from_probabilities(probabilities) {
            Some(base) => {
                let r = explode(&base, exploding_range, exploding_condition, &exploding);
                assert(built(p, base@));
                r
            },
            None => None,
        }
    }
}

} // verus!
