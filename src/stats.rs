//! Statistics of outcomes, as exact fractions.
use vstd::prelude::*;
use crate::probability::Probability;
use crate::compress::{
    all_over, common_den, compress_additive, compress_fits, mass, one, valid_chances,
    weight, lemma_common_den, lemma_mass_prefix, lemma_weight_over,
};
use crate::die::Die;

verus! {

/// An exact fraction `num / den`, with `den > 0` where it comes from a
/// distribution.
#[derive(Clone, Copy, Debug)]
pub struct Fraction {
    pub num: i128,
    pub den: i128,
}

/// The identity on values: its mass is the chance-weighted sum of values.
pub open spec fn identity() -> spec_fn(int) -> int {
    |v: int| v
}

/// The square of values: its mass is the chance-weighted sum of squares.
pub open spec fn square() -> spec_fn(int) -> int {
    |v: int| v * v
}

/// The common denominator of a distribution's chances.
pub open spec fn den_of(s: Seq<Probability>) -> int {
    s[0].chance.den as int
}

/// The numerator of the mean over `den_of(s)`: the sum of `chance * value`.
pub open spec fn mean_num(s: Seq<Probability>) -> int {
    mass(s, den_of(s), identity())
}

/// The numerator of the second moment over `den_of(s)`: the sum of
/// `chance * value * value`.
pub open spec fn second_moment_num(s: Seq<Probability>) -> int {
    mass(s, den_of(s), square())
}

/// The variance over `den_of(s)` squared: `den * m2 - m1 * m1`.
pub open spec fn variance_num(s: Seq<Probability>) -> int {
    den_of(s) * second_moment_num(s) - mean_num(s) * mean_num(s)
}

/// The variance `(d * m2 - m1 * m1) / (d * d)` can be written with 128-bit
/// numerator and denominator.
pub open spec fn moments_fit(d: int, m1: int, m2: int) -> bool {
    &&& d * m2 <= i128::MAX
    &&& m1 * m1 <= i128::MAX
    &&& d * d <= i128::MAX
}

/// The variance of a distribution can be written with 128-bit numerator and
/// denominator.
pub open spec fn variance_fits(s: Seq<Probability>) -> bool {
    moments_fit(den_of(s), mean_num(s), second_moment_num(s))
}

const VALUE_BOUND: i128 = 0x8000_0000;

/// The sum of `num * value` over outcomes all over `d`.
fn first_moment(s: &Vec<Probability>, d: u64) -> (r: i128)
    requires
        d > 0,
        all_over(s@, d as int),
        mass(s@, d as int, one()) <= u64::MAX,
    ensures
        r == mass(s@, d as int, identity()),
{
    let ghost di = d as int;
    proof {
        assert forall|i: int| 0 <= i < s@.len() implies (#[trigger] s@[i]).chance.den > 0 by {}
    }
    let mut acc: i128 = 0;
    let mut i: usize = 0;
    assert(s@.take(0) =~= Seq::<Probability>::empty());
    while i < s.len()
        invariant
            di == d as int,
            d > 0,
            all_over(s@, di),
            valid_chances(s@),
            mass(s@, di, one()) <= u64::MAX,
            i <= s@.len(),
            acc == mass(s@.take(i as int), di, identity()),
            -(mass(s@.take(i as int), di, one()) * VALUE_BOUND) <= acc <= mass(s@.take(i as int), di, one()) * VALUE_BOUND,
        decreases s@.len() - i,
    {
        let p = s[i];
        proof {
            assert(s@.take(i + 1).drop_last() =~= s@.take(i as int));
            assert(s@[i as int].chance.den == d);
            lemma_weight_over(p, di);
            lemma_mass_prefix(s@, i + 1, di, one());
            let t0 = mass(s@.take(i as int), di, one());
            let t1 = mass(s@.take(i + 1), di, one());
            let n = p.chance.num as int;
            let v = p.value as int;
            assert(one()(v) == 1);
            assert(t1 == t0 + n) by (nonlinear_arith)
                requires
                    t1 == t0 + weight(p, di) * one()(v),
                    weight(p, di) == n,
                    one()(v) == 1,
            ;
            assert(identity()(v) == v);
            assert(-(t1 * VALUE_BOUND) <= acc + n * v <= t1 * VALUE_BOUND) by (nonlinear_arith)
                requires
                    -(t0 * VALUE_BOUND) <= acc <= t0 * VALUE_BOUND,
                    t1 == t0 + n,
                    n >= 0,
                    -VALUE_BOUND <= v < VALUE_BOUND,
            ;
            assert(t1 * VALUE_BOUND <= u64::MAX * VALUE_BOUND) by (nonlinear_arith)
                requires
                    t1 <= u64::MAX,
            ;
        }
        let term = (p.chance.num as i128) * (p.value as i128);
        acc = acc + term;
        i = i + 1;
    }
    assert(s@.take(s@.len() as int) =~= s@);
    acc
}

/// The sum of `num * value * value` over outcomes all over `d`.
fn second_moment(s: &Vec<Probability>, d: u64) -> (r: i128)
    requires
        d > 0,
        all_over(s@, d as int),
        mass(s@, d as int, one()) <= u64::MAX,
    ensures
        r == mass(s@, d as int, square()),
        r >= 0,
{
    let ghost di = d as int;
    proof {
        assert forall|i: int| 0 <= i < s@.len() implies (#[trigger] s@[i]).chance.den > 0 by {}
    }
    let mut acc: i128 = 0;
    let mut i: usize = 0;
    assert(s@.take(0) =~= Seq::<Probability>::empty());
    while i < s.len()
        invariant
            di == d as int,
            d > 0,
            all_over(s@, di),
            valid_chances(s@),
            mass(s@, di, one()) <= u64::MAX,
            i <= s@.len(),
            acc == mass(s@.take(i as int), di, square()),
            0 <= acc <= mass(s@.take(i as int), di, one()) * (VALUE_BOUND * VALUE_BOUND),
        decreases s@.len() - i,
    {
        let p = s[i];
        proof {
            assert(s@.take(i + 1).drop_last() =~= s@.take(i as int));
            assert(s@[i as int].chance.den == d);
            lemma_weight_over(p, di);
            lemma_mass_prefix(s@, i + 1, di, one());
            let t0 = mass(s@.take(i as int), di, one());
            let t1 = mass(s@.take(i + 1), di, one());
            let n = p.chance.num as int;
            let v = p.value as int;
            assert(one()(v) == 1);
            assert(t1 == t0 + n) by (nonlinear_arith)
                requires
                    t1 == t0 + weight(p, di) * one()(v),
                    weight(p, di) == n,
                    one()(v) == 1,
            ;
            assert(square()(v) == v * v);
            assert(0 <= acc + n * (v * v) <= t1 * (VALUE_BOUND * VALUE_BOUND)) by (nonlinear_arith)
                requires
                    0 <= acc <= t0 * (VALUE_BOUND * VALUE_BOUND),
                    t1 == t0 + n,
                    n >= 0,
                    -VALUE_BOUND <= v < VALUE_BOUND,
            ;
            assert(t1 * (VALUE_BOUND * VALUE_BOUND) <= u64::MAX * (VALUE_BOUND * VALUE_BOUND)) by (nonlinear_arith)
                requires
                    t1 <= u64::MAX,
            ;
            assert(n * (v * v) == weight(p, di) * square()(v));
        }
        let v = p.value as i128;
        assert(0 <= v * v <= 0x4000_0000_0000_0000) by (nonlinear_arith)
            requires
                -0x8000_0000 <= v < 0x8000_0000,
        ;
        let term = (p.chance.num as i128) * (v * v);
        acc = acc + term;
        i = i + 1;
    }
    assert(s@.take(s@.len() as int) =~= s@);
    acc
}

/// `(d * m2 - m1 * m1) / (d * d)`, or `None` where a product does not fit.
fn variance_from(d: i128, m1: i128, m2: i128) -> (r: Option<Fraction>)
    requires
        d > 0,
        m2 >= 0,
    ensures
        r is Some <==> moments_fit(d as int, m1 as int, m2 as int),
        r matches Some(f) ==> f.num == d * m2 - m1 * m1 && f.den == d * d && f.den > 0,
{
    proof {
        assert(0 <= m1 * m1) by (nonlinear_arith);
        assert(0 <= d * m2) by (nonlinear_arith)
            requires
                d > 0,
                m2 >= 0,
        ;
    }
    match (d.checked_mul(m2), m1.checked_mul(m1), d.checked_mul(d)) {
        (Some(a), Some(b), Some(dd)) => {
            proof {
                assert(dd > 0) by (nonlinear_arith)
                    requires
                        dd == d * d,
                        d > 0,
                ;
            }
            Some(Fraction { num: a - b, den: dd })
        },
        _ => None,
    }
}

/// The mean of a list of outcomes, `sum(chance * value)`, over the common
/// denominator of their chances. No outcomes have mean zero.
///
/// `None` exactly where their compression does not fit (see
/// [`compress_additive`]).
pub fn calc_mean(values: &[Probability]) -> (r: Option<Fraction>)
    requires
        valid_chances(values@),
    ensures
        r is Some <==> compress_fits(values@),
        r matches Some(f) ==> f.num == mass(values@, common_den(values@) as int, identity()) && f.den == common_den(values@),
{
    let ghost l = common_den(values@) as int;
    let c = match compress_additive(values) {
        Some(c) => c,
        None => {
            return None;
        },
    };
    proof {
        lemma_common_den(values@, 0);
        assert(mass(c@, l, one()) == mass(values@, l, one()));
        assert(mass(c@, l, identity()) == mass(values@, l, identity()));
    }
    let d = common_den_of(values, &c);
    let m1 = first_moment(&c, d);
    Some(Fraction { num: m1, den: d as i128 })
}

/// The variance of a list of outcomes, `sum(chance * value * value) -
/// mean * mean`, over the square of the common denominator of their
/// chances.
///
/// `None` exactly where their compression does not fit, or a product on the
/// way does not fit in 128 bits.
pub fn calc_variance(values: &[Probability]) -> (r: Option<Fraction>)
    requires
        valid_chances(values@),
    ensures
        r is Some <==> compress_fits(values@) && moments_fit(
            common_den(values@) as int,
            mass(values@, common_den(values@) as int, identity()),
            mass(values@, common_den(values@) as int, square()),
        ),
        r matches Some(f) ==> {
            let l = common_den(values@) as int;
            &&& f.num == l * mass(values@, l, square()) - mass(values@, l, identity()) * mass(values@, l, identity())
            &&& f.den == l * l
        },
{
    let ghost l = common_den(values@) as int;
    let c = match compress_additive(values) {
        Some(c) => c,
        None => {
            return None;
        },
    };
    proof {
        lemma_common_den(values@, 0);
        assert(mass(c@, l, one()) == mass(values@, l, one()));
        assert(mass(c@, l, identity()) == mass(values@, l, identity()));
        assert(mass(c@, l, square()) == mass(values@, l, square()));
    }
    let d = common_den_of(values, &c);
    let m1 = first_moment(&c, d);
    let m2 = second_moment(&c, d);
    variance_from(d as i128, m1, m2)
}

/// The common denominator of `values`, read off their compression.
fn common_den_of(values: &[Probability], c: &Vec<Probability>) -> (r: u64)
    requires
        valid_chances(values@),
        compress_fits(values@),
        crate::compress::is_compression(c@, values@),
    ensures
        r == common_den(values@),
{
    proof {
        lemma_common_den(values@, 0);
    }
    if c.len() == 0 {
        proof {
            if values@.len() > 0 {
                assert(crate::compress::has_value(values@, values@[0].value as int));
            }
            assert(values@.len() == 0);
        }
        1
    } else {
        c[0].chance.den
    }
}

impl Die {
    /// The mean, `sum(chance * value)`, over the common denominator.
    pub fn get_mean(&self) -> (r: Fraction)
        ensures
            r.num == mean_num(self@),
            r.den == den_of(self@),
            r.den > 0,
    {
        let probs = self.get_probabilities();
        let d = probs[0].chance.den;
        let m1 = first_moment(probs, d);
        Fraction { num: m1, den: d as i128 }
    }

    /// The variance, `sum(chance * value * value) - mean * mean`, over the
    /// square of the common denominator.
    ///
    /// `None` exactly where a product on the way does not fit in 128 bits.
    pub fn get_variance(&self) -> (r: Option<Fraction>)
        ensures
            r is Some <==> variance_fits(self@),
            r matches Some(f) ==> f.num == variance_num(self@) && f.den == den_of(self@) * den_of(self@) && f.den > 0,
    {
        let probs = self.get_probabilities();
        let d = probs[0].chance.den;
        let m1 = first_moment(probs, d);
        let m2 = second_moment(probs, d);
        variance_from(d as i128, m1, m2)
    }
}

} // verus!
