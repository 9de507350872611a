//! One outcome of a distribution: a value and its chance.
use vstd::prelude::*;
use crate::chance::Chance;

verus! {

/// One outcome of a distribution: `value` happens with `chance`.
///
/// Two outcomes are equal, and ordered, by their values alone: this lets a
/// list of outcomes be merged by value.
#[derive(Clone, Copy, Debug)]
pub struct Probability {
    pub value: i32,
    pub chance: Chance,
}

impl Probability {
    /// The outcome of two independent outcomes taken together: the values
    /// add up and the chances multiply. `None` where a sum or product does
    /// not fit.
    pub fn combine(&self, other: &Probability) -> (r: Option<Probability>)
        ensures
            r is Some <==> (i32::MIN <= self.value + other.value <= i32::MAX && self.chance.num
                * other.chance.num <= u64::MAX && self.chance.den * other.chance.den
                <= u64::MAX),
            r matches Some(p) ==> p.value == self.value + other.value && p.chance.num
                == self.chance.num * other.chance.num && p.chance.den == self.chance.den
                * other.chance.den,
    {
        let value = self.value.checked_add(other.value);
        let chance = self.chance.checked_mul(&other.chance);
        match (value, chance) {
            (Some(v), Some(c)) => Some(Probability { value: v, chance: c }),
            _ => None,
        }
    }

    /// This outcome with its chance scaled by `factor`; the value is kept.
    pub fn scale(&self, factor: &Chance) -> (r: Option<Probability>)
        ensures
            r is Some <==> (self.chance.num * factor.num <= u64::MAX && self.chance.den * factor.den
                <= u64::MAX),
            r matches Some(p) ==> p.value == self.value && p.chance.num == self.chance.num
                * factor.num && p.chance.den == self.chance.den * factor.den,
    {
        match self.chance.checked_mul(factor) {
            Some(c) => Some(Probability { value: self.value, chance: c }),
            None => None,
        }
    }
}

impl PartialEq for Probability {
    fn eq(&self, other: &Probability) -> (r: bool) {
        self.value == other.value
    }
}

impl vstd::std_specs::cmp::PartialEqSpecImpl for Probability {
    open spec fn obeys_eq_spec() -> bool {
        true
    }

    open spec fn eq_spec(&self, other: &Probability) -> bool {
        self.value == other.value
    }
}

/// The order of two values.
pub open spec fn value_order(a: i32, b: i32) -> core::cmp::Ordering {
    if a < b {
        core::cmp::Ordering::Less
    } else if a == b {
        core::cmp::Ordering::Equal
    } else {
        core::cmp::Ordering::Greater
    }
}

impl PartialOrd for Probability {
    fn partial_cmp(&self, other: &Probability) -> (r: Option<core::cmp::Ordering>) {
        if self.value < other.value {
            Some(core::cmp::Ordering::Less)
        } else if self.value == other.value {
            Some(core::cmp::Ordering::Equal)
        } else {
            Some(core::cmp::Ordering::Greater)
        }
    }
}

impl vstd::std_specs::cmp::PartialOrdSpecImpl for Probability {
    open spec fn obeys_partial_cmp_spec() -> bool {
        true
    }

    open spec fn partial_cmp_spec(&self, other: &Probability) -> Option<core::cmp::Ordering> {
        Some(value_order(self.value, other.value))
    }
}

} // verus!
