//! Exact non-negative rational chances, and the common-denominator
//! arithmetic they rest on.
use vstd::prelude::*;
use vstd::arithmetic::div_mod::{lemma_fundamental_div_mod, lemma_mod_multiples_basic, lemma_div_by_self};

verus! {

/// Greatest common divisor, by Euclid's algorithm.
pub open spec fn gcd(a: nat, b: nat) -> nat
    decreases b,
{
    if b == 0 {
        a
    } else {
        gcd(b, a % b)
    }
}

/// Least common multiple of two positive numbers.
pub open spec fn lcm(a: nat, b: nat) -> nat {
    (a / gcd(a, b)) * b
}

proof fn lemma_divides_combination(g: int, x: int, y: int, q: int)
    requires
        g > 0,
        x % g == 0,
        y % g == 0,
    ensures
        (q * x + y) % g == 0,
{
    lemma_fundamental_div_mod(x, g);
    lemma_fundamental_div_mod(y, g);
    assert(q * x + y == (q * (x / g) + y / g) * g) by (nonlinear_arith)
        requires
            x == g * (x / g) + x % g,
            y == g * (y / g) + y % g,
            x % g == 0,
            y % g == 0,
    ;
    lemma_mod_multiples_basic(q * (x / g) + y / g, g);
}

/// The greatest common divisor of two numbers, not both zero, is positive
/// and divides both.
pub proof fn lemma_gcd_divides(a: nat, b: nat)
    requires
        a > 0 || b > 0,
    ensures
        gcd(a, b) > 0,
        a % gcd(a, b) == 0,
        b % gcd(a, b) == 0,
    decreases b,
{
    if b == 0 {
        lemma_div_by_self(a as int);
        lemma_mod_multiples_basic(1, a as int);
    } else {
        lemma_gcd_divides(b, a % b);
        let g = gcd(b, a % b) as int;
        lemma_fundamental_div_mod(a as int, b as int);
        lemma_divides_combination(g, b as int, (a % b) as int, a as int / b as int);
        assert(a == (a as int / b as int) * b + (a % b) as int) by (nonlinear_arith)
            requires
                a == b * (a as int / b as int) + (a as int % b as int),
        ;
    }
}

/// The least common multiple of two positive numbers is a positive multiple
/// of both, and no smaller than the first.
pub proof fn lemma_lcm(a: nat, b: nat)
    requires
        a > 0,
        b > 0,
    ensures
        lcm(a, b) > 0,
        lcm(a, b) % a == 0,
        lcm(a, b) % b == 0,
        lcm(a, b) >= a,
{
    lemma_gcd_divides(a, b);
    let g = gcd(a, b) as int;
    lemma_fundamental_div_mod(a as int, g);
    lemma_fundamental_div_mod(b as int, g);
    let qa = a as int / g;
    let qb = b as int / g;
    assert(lcm(a, b) == a * qb && qb >= 1 && qa >= 1) by (nonlinear_arith)
        requires
            a == g * qa,
            b == g * qb,
            g > 0,
            a > 0,
            b > 0,
            lcm(a, b) == qa * b,
    ;
    lemma_mod_multiples_basic(qa, b as int);
    lemma_mod_multiples_basic(qb, a as int);
    assert(a * qb >= a) by (nonlinear_arith)
        requires
            qb >= 1,
            a > 0,
    ;
}

/// A number shares itself with itself, and one with anything.
pub proof fn lemma_lcm_trivial(d: nat)
    requires
        d > 0,
    ensures
        lcm(d, d) == d,
        lcm(1, d) == d,
{
    assert(d % d == 0) by {
        lemma_mod_multiples_basic(1, d as int);
    }
    assert(gcd(d, d) == d) by {
        reveal_with_fuel(gcd, 2);
    }
    lemma_div_by_self(d as int);
    if d == 1 {
        reveal_with_fuel(gcd, 2);
    } else {
        assert(gcd(1, d) == 1) by {
            vstd::arithmetic::div_mod::lemma_small_mod(1, d);
            assert(d % 1nat == 0);
            reveal_with_fuel(gcd, 3);
        }
    }
}

/// Euclid's algorithm.
pub fn gcd_u64(a: u64, b: u64) -> (r: u64)
    ensures
        r == gcd(a as nat, b as nat),
{
    let mut x = a;
    let mut y = b;
    while y != 0
        invariant
            gcd(x as nat, y as nat) == gcd(a as nat, b as nat),
        decreases y,
    {
        let t = x % y;
        x = y;
        y = t;
    }
    x
}

/// An exact chance: the non-negative rational `num / den`.
///
/// A chance is valid when its denominator is positive. Chances are not
/// required to lie in `[0, 1]`; callers supply chances that sum to one.
#[derive(Clone, Copy, Debug)]
pub struct Chance {
    pub num: u64,
    pub den: u64,
}

impl Chance {
    pub open spec fn valid(self) -> bool {
        self.den > 0
    }

    /// Two chances stand for the same rational number.
    pub open spec fn same(self, other: Chance) -> bool {
        self.num * other.den == other.num * self.den
    }

    /// The chance that two independent events both happen: the product of
    /// the two chances, or `None` where numerator or denominator does not fit.
    pub fn checked_mul(&self, other: &Chance) -> (r: Option<Chance>)
        ensures
            r is Some <==> (self.num * other.num <= u64::MAX && self.den * other.den <= u64::MAX),
            r matches Some(c) ==> c.num == self.num * other.num && c.den == self.den * other.den,
    {
        match (self.num.checked_mul(other.num), self.den.checked_mul(other.den)) {
            (Some(n), Some(d)) => Some(Chance { num: n, den: d }),
            _ => None,
        }
    }

    /// `floor(num * width / den)`: how many of `width` cells this chance
    /// fills.
    pub fn cells_of(&self, width: u64) -> (r: u128)
        requires
            self.valid(),
        ensures
            r == (self.num * width) / self.den as int,
    {
        let (n, w) = (self.num as u128, width as u128);
        assert(n * w <= u128::MAX) by (nonlinear_arith)
            requires
                n <= u64::MAX,
                w <= u64::MAX,
        ;
        (n * w) / (self.den as u128)
    }

    /// Whether the two chances are the same rational number.
    pub fn same_value(&self, other: &Chance) -> (r: bool)
        ensures
            r == self.same(*other),
    {
        let (a, b, c, d) = (self.num as u128, other.den as u128, other.num as u128, self.den as u128);
        assert(a * b <= u128::MAX && c * d <= u128::MAX) by (nonlinear_arith)
            requires
                a <= u64::MAX,
                b <= u64::MAX,
                c <= u64::MAX,
                d <= u64::MAX,
        ;
        a * b == c * d
    }
}

impl PartialEq for Chance {
    fn eq(&self, other: &Chance) -> (r: bool) {
        self.same_value(other)
    }
}

impl vstd::std_specs::cmp::PartialEqSpecImpl for Chance {
    open spec fn obeys_eq_spec() -> bool {
        true
    }

    open spec fn eq_spec(&self, other: &Chance) -> bool {
        self.same(*other)
    }
}

} // verus!
