//! A distribution over integer outcomes, such as a die, and its
//! constructors.
use vstd::prelude::*;
use crate::chance::Chance;
use crate::probability::Probability;
use crate::compress::{
    compress_additive, compress_fits, is_compression, is_distribution, valid_chances, all_over,
    strictly_ascending, lemma_compression_is_distribution, lemma_compression_of_canonical,
    lemma_common_den_uniform, lemma_mass_counts,
};

verus! {

/// The neutral distribution: value zero with certainty.
pub open spec fn neutral() -> Seq<Probability> {
    seq![Probability { value: 0, chance: Chance { num: 1, den: 1 } }]
}

/// Each value with the chance `1 / n`, where `n` is the number of values.
pub open spec fn uniform(values: Seq<i32>) -> Seq<Probability> {
    values.map_values(|v: i32| Probability { value: v, chance: Chance { num: 1, den: values.len() as u64 } })
}

/// The values `lo..=hi`, each with the chance `1 / (hi - lo + 1)`.
pub open spec fn uniform_range(lo: int, hi: int) -> Seq<Probability> {
    Seq::new(
        (hi - lo + 1) as nat,
        |i: int| Probability { value: (lo + i) as i32, chance: Chance { num: 1, den: (hi - lo + 1) as u64 } },
    )
}

/// The die with `size` sides: `1..=size`, `size..=-1` for a negative size,
/// and the neutral distribution for size zero.
pub open spec fn sided(size: int) -> Seq<Probability> {
    if size > 0 {
        uniform_range(1, size)
    } else if size == 0 {
        neutral()
    } else {
        uniform_range(size, -1)
    }
}

/// The values between `start` and `end`, both included, in either order.
pub open spec fn range_of(start: int, end: int) -> Seq<Probability> {
    if start <= end {
        uniform_range(start, end)
    } else {
        uniform_range(end, start)
    }
}

/// `x` is the distribution of the outcomes `p`: their compression, or the
/// neutral distribution for no outcomes.
pub open spec fn built(p: Seq<Probability>, x: Seq<Probability>) -> bool {
    if p.len() == 0 {
        x == neutral()
    } else {
        is_compression(x, p)
    }
}

/// The distribution of the outcomes `p` fits in 64 bits.
pub open spec fn built_fits(p: Seq<Probability>) -> bool {
    p.len() == 0 || compress_fits(p)
}

/// Gives each of the values the same chance, `1 / n` for `n` values.
pub fn values_to_probabilities(values: &[i32]) -> (r: Vec<Probability>)
    ensures
        r@ == uniform(values@),
{
    let n = values.len() as u64;
    let mut out: Vec<Probability> = Vec::new();
    let mut i: usize = 0;
    while i < values.len()
        invariant
            n == values@.len(),
            i <= values@.len(),
            out@ == uniform(values@).take(i as int),
        decreases values@.len() - i,
    {
        out.push(Probability { value: values[i], chance: Chance { num: 1, den: n } });
        i = i + 1;
        assert(out@ =~= uniform(values@).take(i as int));
    }
    assert(out@ =~= uniform(values@));
    out
}

/// Two lists of outcomes with the same values, in order, and chances of the
/// same rational value.
pub open spec fn same_outcomes(a: Seq<Probability>, b: Seq<Probability>) -> bool {
    &&& a.len() == b.len()
    &&& forall|i: int| 0 <= i < a.len() ==> (#[trigger] a[i]).value == b[i].value && a[i].chance.same(b[i].chance)
}

/// A discrete probability distribution over `i32` values, in canonical form:
/// values ascending and distinct, all chances over one denominator.
#[derive(Debug)]
pub struct Die {
    probabilities: Vec<Probability>,
}

impl View for Die {
    type V = Seq<Probability>;

    /// The outcomes, ascending by value.
    closed spec fn view(&self) -> Seq<Probability> {
        self.probabilities@
    }
}

impl Die {
    #[verifier::type_invariant]
    spec fn well_formed(self) -> bool {
        is_distribution(self.probabilities@)
    }

    /// The distribution of the given outcomes: outcomes of equal value are
    /// merged by summing their chances (see [`compress_additive`]), and no
    /// outcomes at all give the neutral distribution. The chances are taken
    /// as given, not scaled to sum to one.
    ///
    /// `None` exactly where the merged chances do not fit in 64 bits.
    pub fn from_probabilities(probabilities: Vec<Probability>) -> (r: Option<Die>)
        requires
            valid_chances(probabilities@),
        ensures
            r is Some <==> built_fits(probabilities@),
            r matches Some(d) ==> built(probabilities@, d@) && is_distribution(d@),
    {
        if probabilities.len() == 0 {
            let v = vec![Probability { value: 0, chance: Chance { num: 1, den: 1 } }];
            proof {
                assert(v@ =~= neutral());
                lemma_mass_counts(neutral(), 1);
            }
            return Some(Die { probabilities: v });
        }
        match compress_additive(probabilities.as_slice()) {
            Some(c) => {
                proof {
                    lemma_compression_is_distribution(c@, probabilities@);
                }
                Some(Die { probabilities: c })
            },
            None => None,
        }
    }

    /// The neutral distribution: value zero with chance one.
    pub fn empty() -> (r: Die)
        ensures
            r@ == neutral(),
            is_distribution(r@),
    {
        match Die::from_probabilities(Vec::new()) {
            Some(d) => d,
            None => {
                proof {
                    assert(false);
                }
                Die { probabilities: Vec::new() }
            },
        }
    }

    /// Each of the values with the same chance, `1 / n` for `n` values;
    /// values given more than once have that chance as often. No values
    /// give the neutral distribution.
    pub fn from_values(values: &[i32]) -> (r: Die)
        ensures
            built(uniform(values@), r@),
            is_distribution(r@),
    {
        let count = values.len();
        let probabilities = values_to_probabilities(values);
        let ghost n = values@.len() as int;
        assert(n == count as int && count as u64 as int == n);
        proof {
            if n > 0 {
                assert forall|i: int| 0 <= i < n implies (#[trigger] probabilities@[i]).chance.den == n && probabilities@[i].chance.num == 1 by {
                    assert(probabilities@[i] == uniform(values@)[i]);
                }
                lemma_common_den_uniform(probabilities@, n);
                lemma_mass_counts(probabilities@, n);
            }
        }
        match Die::from_probabilities(probabilities) {
            Some(d) => d,
            None => {
                proof {
                    assert(false);
                }
                Die { probabilities: Vec::new() }
            },
        }
    }

    /// The values from `start` to `end`, both included, each with the same
    /// chance. Reversed bounds are swapped.
    pub fn from_range(start: i32, end: i32) -> (r: Die)
        ensures
            r@ == range_of(start as int, end as int),
            is_distribution(r@),
    {
        let (lo, hi) = if end < start {
            (end, start)
        } else {
            (start, end)
        };
        let ghost n = hi - lo + 1;
        let mut values: Vec<i32> = Vec::new();
        let mut v: i64 = lo as i64;
        while v <= hi as i64
            invariant
                lo <= hi,
                n == hi - lo + 1,
                lo <= v <= hi as int + 1,
                values@.len() == v - lo,
                forall|i: int| 0 <= i < values@.len() ==> #[trigger] values@[i] == lo + i,
            decreases hi + 1 - v,
        {
            values.push(v as i32);
            v = v + 1;
        }
        let d = Die::from_values(values.as_slice());
        proof {
            let u = uniform(values@);
            let want = uniform_range(lo as int, hi as int);
            assert(u =~= want);
            assert(strictly_ascending(want));
            assert(all_over(want, n));
            lemma_compression_of_canonical(d@, want, n);
        }
        d
    }

    /// A die with `size` sides: the values `1..=size` with equal chances,
    /// the values `size..=-1` for a negative size, and the neutral
    /// distribution for size zero.
    pub fn new(size: i32) -> (r: Die)
        ensures
            r@ == sided(size as int),
            is_distribution(r@),
    {
        if size < 0 {
            Die::from_range(size, -1)
        } else if size == 0 {
            Die::empty()
        } else {
            Die::from_range(1, size)
        }
    }

    /// The outcomes, ascending by value.
    pub fn get_probabilities(&self) -> (r: &Vec<Probability>)
        ensures
            r@ == self@,
            is_distribution(self@),
    {
        proof {
            use_type_invariant(self);
        }
        &self.probabilities
    }

    /// The smallest value.
    pub fn get_min(&self) -> (r: i32)
        ensures
            r == self@[0].value,
            forall|i: int| 0 <= i < self@.len() ==> r <= #[trigger] self@[i].value,
    {
        proof {
            use_type_invariant(self);
        }
        self.probabilities[0].value
    }

    /// The largest value.
    pub fn get_max(&self) -> (r: i32)
        ensures
            r == self@.last().value,
            forall|i: int| 0 <= i < self@.len() ==> #[trigger] self@[i].value <= r,
    {
        proof {
            use_type_invariant(self);
        }
        self.probabilities[self.probabilities.len() - 1].value
    }

    /// Every value moved by `flat_increase`, every chance kept.
    pub fn add_flat(&self, flat_increase: i32) -> (r: Die)
        requires
            forall|i: int| 0 <= i < self@.len() ==> i32::MIN <= #[trigger] self@[i].value + flat_increase <= i32::MAX,
        ensures
            r@.len() == self@.len(),
            forall|i: int| 0 <= i < self@.len() ==> (#[trigger] r@[i]).value == self@[i].value + flat_increase && r@[i].chance == self@[i].chance,
            is_distribution(r@),
    {
        proof {
            use_type_invariant(self);
        }
        let n = self.probabilities.len();
        let mut out: Vec<Probability> = Vec::new();
        let mut i: usize = 0;
        while i < n
            invariant
                n == self@.len(),
                i <= n,
                forall|k: int| 0 <= k < n ==> i32::MIN <= #[trigger] self@[k].value + flat_increase <= i32::MAX,
                out@.len() == i,
                forall|k: int| 0 <= k < i ==> (#[trigger] out@[k]).value == self@[k].value + flat_increase && out@[k].chance == self@[k].chance,
            decreases n - i,
        {
            let p = self.probabilities[i];
            out.push(Probability { value: p.value + flat_increase, chance: p.chance });
            i = i + 1;
        }
        proof {
            let s = self@;
            let d = s[0].chance.den as int;
            assert(all_over(out@, d));
            assert forall|k: int| 0 <= k < n implies crate::compress::one()((#[trigger] out@[k]).value as int) == crate::compress::one()(s[k].value as int) && crate::compress::weight(out@[k], d) == crate::compress::weight(s[k], d) by {}
            crate::compress::lemma_mass_pointwise(out@, d, s, d, crate::compress::one());
        }
        Die { probabilities: out }
    }
}

impl Clone for Die {
    fn clone(&self) -> (r: Die)
        ensures
            r@ == self@,
    {
        proof {
            use_type_invariant(self);
        }
        let mut out: Vec<Probability> = Vec::new();
        let mut i: usize = 0;
        while i < self.probabilities.len()
            invariant
                i <= self@.len(),
                self.probabilities@ == self@,
                out@ == self@.take(i as int),
            decreases self@.len() - i,
        {
            out.push(self.probabilities[i]);
            i = i + 1;
            assert(out@ =~= self@.take(i as int));
        }
        assert(out@ =~= self@);
        Die { probabilities: out }
    }
}

impl PartialEq for Die {
    fn eq(&self, other: &Die) -> (r: bool) {
        let a = self.get_probabilities();
        let b = other.get_probabilities();
        if a.len() != b.len() {
            return false;
        }
        let mut i: usize = 0;
        while i < a.len()
            invariant
                a@ == self@,
                b@ == other@,
                a@.len() == b@.len(),
                i <= a@.len(),
                forall|k: int| 0 <= k < i ==> (#[trigger] a@[k]).value == b@[k].value && a@[k].chance.same(b@[k].chance),
            decreases a@.len() - i,
        {
            if a[i].value != b[i].value || !a[i].chance.same_value(&b[i].chance) {
                return false;
            }
            i = i + 1;
        }
        true
    }
}

impl vstd::std_specs::cmp::PartialEqSpecImpl for Die {
    open spec fn obeys_eq_spec() -> bool {
        true
    }

    open spec fn eq_spec(&self, other: &Die) -> bool {
        same_outcomes(self@, other@)
    }
}

} // verus!
