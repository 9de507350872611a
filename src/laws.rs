//! Laws of the distribution algebra, proved over the contracts of its
//! operations.
use vstd::prelude::*;
use crate::probability::Probability;
use crate::compress::{
    all_over, common_den, compress_fits, has_value, is_compression, is_distribution, mass, one,
    valid_chances, lemma_canonical_unique, lemma_common_den, lemma_common_den_uniform,
    lemma_compression_of_canonical, lemma_has_value_concat, lemma_mass_concat, lemma_weight_over,
};
use crate::compose::{chain_fits, chain_outcome, chain_raw, repeat, row, row_fits};
use crate::die::{Die, built, built_fits, neutral, sided, uniform_range};
use crate::stats::{den_of, identity, mean_num, square, variance_num};

verus! {

/// Compression is idempotent: compressing the compression of `x` gives it
/// back. Compression keeps the total chance, and the compression of a list
/// whose compression fits fits too.
pub proof fn lemma_compress_idempotent(x: Seq<Probability>, c: Seq<Probability>, cc: Seq<Probability>)
    requires
        valid_chances(x),
        compress_fits(x),
        is_compression(c, x),
        is_compression(cc, c),
    ensures
        cc == c,
        mass(c, common_den(x) as int, one()) == mass(x, common_den(x) as int, one()),
        valid_chances(c),
        compress_fits(c),
{
    let l = common_den(x) as int;
    lemma_common_den(x, 0);
    assert(valid_chances(c));
    if c.len() == 0 {
        if cc.len() > 0 {
            assert(has_value(cc, cc[0].value as int));
        }
        assert(cc =~= c);
    } else {
        lemma_compression_of_canonical(cc, c, l);
        lemma_common_den_uniform(c, l);
    }
    assert(mass(c, l, one()) == mass(x, l, one()));
}

/// Round trip: building a distribution from the outcomes of a distribution
/// gives the same distribution, and the build always succeeds.
pub proof fn lemma_round_trip(d: Seq<Probability>, r: Seq<Probability>)
    requires
        is_distribution(d),
        built(d, r),
    ensures
        r == d,
        built_fits(d),
{
    let den = d[0].chance.den as int;
    lemma_compression_of_canonical(r, d, den);
    lemma_common_den_uniform(d, den);
}

proof fn lemma_uniform_sums(n: int, k: int)
    requires
        1 <= n <= i32::MAX,
        0 <= k <= n,
    ensures
        2 * mass(uniform_range(1, n).take(k), n, identity()) == k * (k + 1),
        6 * mass(uniform_range(1, n).take(k), n, square()) == k * (k + 1) * (2 * k + 1),
    decreases k,
{
    let s = uniform_range(1, n);
    if k == 0 {
        assert(s.take(0).len() == 0);
    } else {
        lemma_uniform_sums(n, k - 1);
        assert(s.take(k).drop_last() =~= s.take(k - 1));
        let p = s[k - 1];
        assert(s.take(k).last() == p);
        assert(p.value as int == k);
        lemma_weight_over(p, n);
        let m1 = mass(s.take(k - 1), n, identity());
        let m2 = mass(s.take(k - 1), n, square());
        assert(identity()(k) == k);
        assert(square()(k) == k * k);
        assert(mass(s.take(k), n, identity()) == m1 + k);
        assert(mass(s.take(k), n, square()) == m2 + k * k);
        assert(2 * (m1 + k) == k * (k + 1)) by (nonlinear_arith)
            requires
                2 * m1 == (k - 1) * k,
        ;
        assert(6 * (m2 + k * k) == k * (k + 1) * (2 * k + 1)) by (nonlinear_arith)
            requires
                6 * m2 == (k - 1) * k * (2 * k - 1),
        ;
    }
}

/// The die with `n` sides has mean `(n + 1) / 2` and variance
/// `(n * n - 1) / 12`.
pub proof fn lemma_uniform_moments(n: int)
    requires
        1 <= n <= i32::MAX,
    ensures
        2 * mean_num(sided(n)) == (n + 1) * den_of(sided(n)),
        12 * variance_num(sided(n)) == (n * n - 1) * (den_of(sided(n)) * den_of(sided(n))),
{
    let s = uniform_range(1, n);
    assert(sided(n) == s);
    lemma_uniform_sums(n, n);
    assert(s.take(n) =~= s);
    assert(den_of(s) == n);
    let m1 = mean_num(s);
    let m2 = mass(s, n, square());
    assert(2 * m1 == (n + 1) * n) by (nonlinear_arith)
        requires
            2 * m1 == n * (n + 1),
    ;
    assert(12 * (n * m2 - m1 * m1) == (n * n - 1) * (n * n)) by (nonlinear_arith)
        requires
            2 * m1 == n * (n + 1),
            6 * m2 == n * (n + 1) * (2 * n + 1),
    ;
}

/// The sum of two outcomes fits: value, numerator and denominator.
pub open spec fn pair_fits(x: Probability, y: Probability) -> bool {
    &&& i32::MIN <= x.value + y.value <= i32::MAX
    &&& x.chance.num * y.chance.num <= u64::MAX
    &&& x.chance.den * y.chance.den <= u64::MAX
}

/// Every outcome of `a` can be summed with every outcome of `b`.
pub open spec fn grid_fits(a: Seq<Probability>, b: Seq<Probability>) -> bool {
    forall|i: int, j: int| 0 <= i < a.len() && 0 <= j < b.len() ==> pair_fits(#[trigger] a[i], #[trigger] b[j])
}

/// The chance-weighted sum of `g` over the sums of `x` with each outcome
/// of `b`, in numerators.
pub open spec fn row_mass(x: Probability, b: Seq<Probability>, g: spec_fn(int) -> int) -> int
    decreases b.len(),
{
    if b.len() == 0 {
        0
    } else {
        row_mass(x, b.drop_last(), g) + x.chance.num * b.last().chance.num * g(x.value + b.last().value)
    }
}

/// The chance-weighted sum of `g` over the sums of each outcome of `a`
/// with each outcome of `b`, in numerators.
pub open spec fn grid_mass(a: Seq<Probability>, b: Seq<Probability>, g: spec_fn(int) -> int) -> int
    decreases a.len(),
{
    if a.len() == 0 {
        0
    } else {
        grid_mass(a.drop_last(), b, g) + row_mass(a.last(), b, g)
    }
}

proof fn lemma_grid_empty(b: Seq<Probability>, a: Seq<Probability>, g: spec_fn(int) -> int)
    requires
        a.len() == 0,
    ensures
        grid_mass(b, a, g) == 0,
    decreases b.len(),
{
    if b.len() > 0 {
        lemma_grid_empty(b.drop_last(), a, g);
    }
}

proof fn lemma_grid_last_column(b: Seq<Probability>, a: Seq<Probability>, g: spec_fn(int) -> int)
    requires
        a.len() > 0,
    ensures
        grid_mass(b, a, g) == grid_mass(b, a.drop_last(), g) + row_mass(a.last(), b, g),
    decreases b.len(),
{
    if b.len() > 0 {
        lemma_grid_last_column(b.drop_last(), a, g);
        let x = a.last();
        let y = b.last();
        assert(x.chance.num * y.chance.num * g(x.value + y.value) == y.chance.num * x.chance.num * g(y.value + x.value)) by (nonlinear_arith);
    }
}

/// The grid sum does not depend on which side is the outer one.
proof fn lemma_grid_swap(a: Seq<Probability>, b: Seq<Probability>, g: spec_fn(int) -> int)
    ensures
        grid_mass(a, b, g) == grid_mass(b, a, g),
    decreases a.len(),
{
    if a.len() == 0 {
        lemma_grid_empty(b, a, g);
    } else {
        lemma_grid_swap(a.drop_last(), b, g);
        lemma_grid_last_column(b, a, g);
    }
}

/// The raw outcomes of `x` followed by `b`, where the sums fit, weigh as
/// their row mass over the denominator of their chances.
proof fn lemma_row_mass(x: Probability, b: Seq<Probability>, d: int, g: spec_fn(int) -> int)
    requires
        d > 0,
        forall|j: int| 0 <= j < b.len() ==> pair_fits(x, #[trigger] b[j]) && x.chance.den * b[j].chance.den == d,
    ensures
        mass(row(x, b, true), d, g) == row_mass(x, b, g),
        all_over(row(x, b, true), d),
        forall|v: int| has_value(row(x, b, true), v) <==> exists|j: int| 0 <= j < b.len() && x.value + #[trigger] b[j].value == v,
    decreases b.len(),
{
    let r = row(x, b, true);
    if b.len() > 0 {
        let bl = b.drop_last();
        assert(row(x, bl, true) =~= r.drop_last());
        lemma_row_mass(x, bl, d, g);
        let y = b.last();
        assert(y == b[b.len() - 1]);
        let e = r.last();
        assert(e == r[r.len() - 1]);
        lemma_weight_over(e, d);
        assert(e.value as int == x.value + y.value);
        assert forall|v: int| has_value(r, v) <==> exists|j: int| 0 <= j < b.len() && x.value + #[trigger] b[j].value == v by {
            assert(r =~= r.drop_last() + seq![e]);
            lemma_has_value_concat(r.drop_last(), seq![e], v);
            if e.value == v {
                assert(seq![e][0].value == v);
            }
            if exists|j: int| 0 <= j < b.len() && x.value + #[trigger] b[j].value == v {
                let j = choose|j: int| 0 <= j < b.len() && x.value + #[trigger] b[j].value == v;
                if j < b.len() - 1 {
                    assert(bl[j] == b[j]);
                }
            }
            if exists|j: int| 0 <= j < bl.len() && x.value + #[trigger] bl[j].value == v {
                let j = choose|j: int| 0 <= j < bl.len() && x.value + #[trigger] bl[j].value == v;
                assert(bl[j] == b[j]);
            }
        }
        assert forall|i: int| 0 <= i < r.len() implies (#[trigger] r[i]).chance.den == d by {
            assert(b[i] == b[i]);
        }
    } else {
        assert forall|v: int| has_value(r, v) <==> exists|j: int| 0 <= j < b.len() && x.value + #[trigger] b[j].value == v by {}
    }
}

/// The raw outcomes of the independent sum weigh as the grid mass, all over
/// the product denominator, with the sums of the two sides as values.
proof fn lemma_independent_raw(a: Seq<Probability>, outs: Seq<Seq<Probability>>, b: Seq<Probability>, d: int, g: spec_fn(int) -> int)
    requires
        d > 0,
        outs.len() >= a.len(),
        forall|i: int| 0 <= i < a.len() ==> #[trigger] outs[i] == b,
        grid_fits(a, b),
        forall|i: int, j: int| 0 <= i < a.len() && 0 <= j < b.len() ==> (#[trigger] a[i]).chance.den * (#[trigger] b[j]).chance.den == d,
    ensures
        mass(chain_raw(a, outs, true), d, g) == grid_mass(a, b, g),
        all_over(chain_raw(a, outs, true), d),
        forall|v: int| has_value(chain_raw(a, outs, true), v) <==> exists|i: int, j: int| 0 <= i < a.len() && 0 <= j < b.len() && #[trigger] a[i].value + #[trigger] b[j].value == v,
    decreases a.len(),
{
    let raw = chain_raw(a, outs, true);
    if a.len() == 0 {
        assert forall|v: int| has_value(raw, v) <==> exists|i: int, j: int| 0 <= i < a.len() && 0 <= j < b.len() && #[trigger] a[i].value + #[trigger] b[j].value == v by {}
    } else {
        let al = a.drop_last();
        let x = a.last();
        assert(x == a[a.len() - 1]);
        assert(outs[a.len() - 1] == b);
        assert forall|i: int| 0 <= i < al.len() implies #[trigger] outs[i] == b by {
            assert(outs[i] == b);
        }
        assert forall|i: int, j: int| 0 <= i < al.len() && 0 <= j < b.len() implies pair_fits(#[trigger] al[i], #[trigger] b[j]) && al[i].chance.den * b[j].chance.den == d by {
            assert(al[i] == a[i]);
        }
        lemma_independent_raw(al, outs, b, d, g);
        assert forall|j: int| 0 <= j < b.len() implies pair_fits(x, #[trigger] b[j]) && x.chance.den * b[j].chance.den == d by {
            assert(pair_fits(a[a.len() - 1], b[j]));
        }
        lemma_row_mass(x, b, d, g);
        let front = chain_raw(al, outs, true);
        let back = row(x, b, true);
        assert(raw == front + back);
        lemma_mass_concat(front, back, d, g);
        assert forall|k: int| 0 <= k < raw.len() implies (#[trigger] raw[k]).chance.den == d by {
            if k < front.len() {
                assert(raw[k] == front[k]);
            } else {
                assert(raw[k] == back[k - front.len()]);
            }
        }
        assert forall|v: int| has_value(raw, v) <==> exists|i: int, j: int| 0 <= i < a.len() && 0 <= j < b.len() && #[trigger] a[i].value + #[trigger] b[j].value == v by {
            lemma_has_value_concat(front, back, v);
            if has_value(front, v) {
                let (i, j) = choose|i: int, j: int| 0 <= i < al.len() && 0 <= j < b.len() && #[trigger] al[i].value + #[trigger] b[j].value == v;
                assert(a[i] == al[i]);
                assert(a[i].value + b[j].value == v);
            }
            if has_value(back, v) {
                let j = choose|j: int| 0 <= j < b.len() && x.value + #[trigger] b[j].value == v;
                assert(a[a.len() - 1].value + b[j].value == v);
            }
            if exists|i: int, j: int| 0 <= i < a.len() && 0 <= j < b.len() && #[trigger] a[i].value + #[trigger] b[j].value == v {
                let (i, j) = choose|i: int, j: int| 0 <= i < a.len() && 0 <= j < b.len() && #[trigger] a[i].value + #[trigger] b[j].value == v;
                if i < a.len() - 1 {
                    assert(al[i] == a[i]);
                    assert(al[i].value + b[j].value == v);
                    assert(has_value(front, v));
                } else {
                    assert(x.value + b[j].value == v);
                    assert(has_value(back, v));
                }
            }
        }
    }
}

proof fn lemma_independent_fits(a: Seq<Probability>, b: Seq<Probability>)
    ensures
        chain_fits(a, repeat(b, a.len()), true) <==> grid_fits(a, b),
{
    let outs = repeat(b, a.len());
    if chain_fits(a, outs, true) {
        assert forall|i: int, j: int| 0 <= i < a.len() && 0 <= j < b.len() implies pair_fits(#[trigger] a[i], #[trigger] b[j]) by {
            assert(outs[i] == b);
            assert(row_fits(a[i], outs[i], true));
        }
    }
    if grid_fits(a, b) {
        assert forall|i: int| 0 <= i < a.len() implies row_fits(#[trigger] a[i], outs[i], true) by {
            assert(outs[i] == b);
            assert forall|j: int| 0 <= j < b.len() implies pair_fits(a[i], #[trigger] b[j]) by {}
        }
    }
}

/// The facts about the independent sum of `a` and `b` that the laws use:
/// its raw outcomes are all over `da * db`, weigh as the grid mass, and have
/// the pairwise sums as values.
proof fn lemma_independent_facts(a: Seq<Probability>, b: Seq<Probability>)
    requires
        is_distribution(a),
        is_distribution(b),
        grid_fits(a, b),
    ensures
        common_den(chain_raw(a, repeat(b, a.len()), true)) == a[0].chance.den * b[0].chance.den,
        forall|g: spec_fn(int) -> int| #[trigger] mass(chain_raw(a, repeat(b, a.len()), true), a[0].chance.den * b[0].chance.den, g) == grid_mass(a, b, g),
        forall|v: int| has_value(chain_raw(a, repeat(b, a.len()), true), v) <==> exists|i: int, j: int| 0 <= i < a.len() && 0 <= j < b.len() && #[trigger] a[i].value + #[trigger] b[j].value == v,
{
    let outs = repeat(b, a.len());
    let raw = chain_raw(a, outs, true);
    let d = a[0].chance.den * b[0].chance.den;
    assert(d > 0) by (nonlinear_arith)
        requires
            d == a[0].chance.den * b[0].chance.den,
            a[0].chance.den > 0,
            b[0].chance.den > 0,
    ;
    assert forall|i: int| 0 <= i < a.len() implies #[trigger] outs[i] == b by {}
    assert forall|i: int, j: int| 0 <= i < a.len() && 0 <= j < b.len() implies (#[trigger] a[i]).chance.den * (#[trigger] b[j]).chance.den == d by {
        assert(a[i].chance.den == a[0].chance.den);
        assert(b[j].chance.den == b[0].chance.den);
    }
    assert forall|g: spec_fn(int) -> int| #[trigger] mass(raw, d, g) == grid_mass(a, b, g) by {
        lemma_independent_raw(a, outs, b, d, g);
    }
    lemma_independent_raw(a, outs, b, d, one());
    assert(a[0].value + b[0].value == a[0].value + b[0].value);
    assert(has_value(raw, a[0].value + b[0].value));
    lemma_common_den_uniform(raw, d);
}

/// Independent combination is commutative: `a + b` exists exactly where
/// `b + a` does, and the two are the same distribution.
pub proof fn lemma_independent_commutative(a: Seq<Probability>, b: Seq<Probability>, ab: Option<Die>, ba: Option<Die>)
    requires
        is_distribution(a),
        is_distribution(b),
        chain_outcome(a, repeat(b, a.len()), true, ab),
        chain_outcome(b, repeat(a, b.len()), true, ba),
    ensures
        ab is Some <==> ba is Some,
        ab is Some ==> ab->0@ == ba->0@,
{
    lemma_independent_fits(a, b);
    lemma_independent_fits(b, a);
    assert(grid_fits(a, b) <==> grid_fits(b, a)) by {
        if grid_fits(a, b) {
            assert forall|j: int, i: int| 0 <= j < b.len() && 0 <= i < a.len() implies pair_fits(#[trigger] b[j], #[trigger] a[i]) by {
                assert(pair_fits(a[i], b[j]));
                assert(a[i].chance.num * b[j].chance.num == b[j].chance.num * a[i].chance.num) by (nonlinear_arith);
                assert(a[i].chance.den * b[j].chance.den == b[j].chance.den * a[i].chance.den) by (nonlinear_arith);
            }
        }
        if grid_fits(b, a) {
            assert forall|i: int, j: int| 0 <= i < a.len() && 0 <= j < b.len() implies pair_fits(#[trigger] a[i], #[trigger] b[j]) by {
                assert(pair_fits(b[j], a[i]));
                assert(a[i].chance.num * b[j].chance.num == b[j].chance.num * a[i].chance.num) by (nonlinear_arith);
                assert(a[i].chance.den * b[j].chance.den == b[j].chance.den * a[i].chance.den) by (nonlinear_arith);
            }
        }
    }
    if grid_fits(a, b) {
        let rab = chain_raw(a, repeat(b, a.len()), true);
        let rba = chain_raw(b, repeat(a, b.len()), true);
        let d = a[0].chance.den * b[0].chance.den;
        assert(d == b[0].chance.den * a[0].chance.den) by (nonlinear_arith)
            requires
                d == a[0].chance.den * b[0].chance.den,
        ;
        lemma_independent_facts(a, b);
        lemma_independent_facts(b, a);
        assert forall|g: spec_fn(int) -> int| #[trigger] mass(rab, d, g) == mass(rba, d, g) by {
            lemma_grid_swap(a, b, g);
        }
        assert forall|v: int| has_value(rab, v) <==> has_value(rba, v) by {
            if has_value(rab, v) {
                let (i, j) = choose|i: int, j: int| 0 <= i < a.len() && 0 <= j < b.len() && #[trigger] a[i].value + #[trigger] b[j].value == v;
                assert(b[j].value + a[i].value == v);
            }
            if has_value(rba, v) {
                let (j, i) = choose|j: int, i: int| 0 <= j < b.len() && 0 <= i < a.len() && #[trigger] b[j].value + #[trigger] a[i].value == v;
                assert(a[i].value + b[j].value == v);
            }
        }
        assert(mass(rab, d, one()) == mass(rba, d, one()));
        if ab is Some {
            let x = ab->0@;
            let y = ba->0@;
            assert(d > 0) by (nonlinear_arith)
                requires
                    d == a[0].chance.den * b[0].chance.den,
                    a[0].chance.den > 0,
                    b[0].chance.den > 0,
            ;
            assert forall|g: spec_fn(int) -> int| #[trigger] mass(x, d, g) == mass(y, d, g) by {
                assert(mass(x, d, g) == mass(rab, d, g));
                assert(mass(y, d, g) == mass(rba, d, g));
            }
            lemma_canonical_unique(x, y, d);
        }
    }
}

/// The chance-weighted sum of `g` over `u` plus each value of `c`, in
/// numerators.
pub open spec fn shifted_mass(c: Seq<Probability>, g: spec_fn(int) -> int, u: int) -> int
    decreases c.len(),
{
    if c.len() == 0 {
        0
    } else {
        shifted_mass(c.drop_last(), g, u) + c.last().chance.num * g(u + c.last().value)
    }
}

/// `g` after adding one roll of `c`, weighted by chance numerators.
pub open spec fn follow(c: Seq<Probability>, g: spec_fn(int) -> int) -> spec_fn(int) -> int {
    |v: int| shifted_mass(c, g, v)
}

/// `g` moved by `u`.
pub open spec fn shift(g: spec_fn(int) -> int, u: int) -> spec_fn(int) -> int {
    |y: int| g(u + y)
}

proof fn lemma_row_factor(x: Probability, c: Seq<Probability>, g: spec_fn(int) -> int)
    ensures
        row_mass(x, c, g) == x.chance.num * shifted_mass(c, g, x.value as int),
    decreases c.len(),
{
    if c.len() > 0 {
        lemma_row_factor(x, c.drop_last(), g);
        let n = x.chance.num as int;
        let m = c.last().chance.num as int;
        let t = g(x.value + c.last().value);
        let r = shifted_mass(c.drop_last(), g, x.value as int);
        assert(n * r + n * m * t == n * (r + m * t)) by (nonlinear_arith);
    }
}

proof fn lemma_grid_as_mass(x: Seq<Probability>, dx: int, c: Seq<Probability>, g: spec_fn(int) -> int)
    requires
        dx > 0,
        all_over(x, dx),
    ensures
        grid_mass(x, c, g) == mass(x, dx, follow(c, g)),
    decreases x.len(),
{
    if x.len() > 0 {
        let xl = x.drop_last();
        assert forall|i: int| 0 <= i < xl.len() implies (#[trigger] xl[i]).chance.den == dx by {
            assert(xl[i] == x[i]);
        }
        lemma_grid_as_mass(xl, dx, c, g);
        let e = x.last();
        assert(e == x[x.len() - 1]);
        lemma_weight_over(e, dx);
        lemma_row_factor(e, c, g);
        assert(follow(c, g)(e.value as int) == shifted_mass(c, g, e.value as int));
    }
}

proof fn lemma_shifted_as_mass(x: Seq<Probability>, dx: int, g: spec_fn(int) -> int, u: int)
    requires
        dx > 0,
        all_over(x, dx),
    ensures
        shifted_mass(x, g, u) == mass(x, dx, shift(g, u)),
    decreases x.len(),
{
    if x.len() > 0 {
        let xl = x.drop_last();
        assert forall|i: int| 0 <= i < xl.len() implies (#[trigger] xl[i]).chance.den == dx by {
            assert(xl[i] == x[i]);
        }
        lemma_shifted_as_mass(xl, dx, g, u);
        let e = x.last();
        assert(e == x[x.len() - 1]);
        lemma_weight_over(e, dx);
        assert(shift(g, u)(e.value as int) == g(u + e.value));
    }
}

proof fn lemma_shift_shift(c: Seq<Probability>, g: spec_fn(int) -> int, u: int, w: int)
    ensures
        shifted_mass(c, shift(g, u), w) == shifted_mass(c, g, u + w),
    decreases c.len(),
{
    if c.len() > 0 {
        lemma_shift_shift(c.drop_last(), g, u, w);
        assert(shift(g, u)(w + c.last().value) == g(u + w + c.last().value));
    }
}

proof fn lemma_follow_grid(b: Seq<Probability>, c: Seq<Probability>, g: spec_fn(int) -> int, u: int)
    ensures
        shifted_mass(b, follow(c, g), u) == grid_mass(b, c, shift(g, u)),
    decreases b.len(),
{
    if b.len() > 0 {
        lemma_follow_grid(b.drop_last(), c, g, u);
        let y = b.last();
        lemma_row_factor(y, c, shift(g, u));
        lemma_shift_shift(c, g, u, y.value as int);
        assert(follow(c, g)(u + y.value) == shifted_mass(c, g, u + y.value));
    }
}

proof fn lemma_grid_rows(a: Seq<Probability>, b1: Seq<Probability>, g1: spec_fn(int) -> int, b2: Seq<Probability>, g2: spec_fn(int) -> int)
    requires
        forall|i: int| 0 <= i < a.len() ==> row_mass(#[trigger] a[i], b1, g1) == row_mass(a[i], b2, g2),
    ensures
        grid_mass(a, b1, g1) == grid_mass(a, b2, g2),
    decreases a.len(),
{
    if a.len() > 0 {
        let al = a.drop_last();
        assert forall|i: int| 0 <= i < al.len() implies row_mass(#[trigger] al[i], b1, g1) == row_mass(al[i], b2, g2) by {
            assert(al[i] == a[i]);
        }
        lemma_grid_rows(al, b1, g1, b2, g2);
        assert(a.last() == a[a.len() - 1]);
    }
}

/// Independent combination is associative: where `(a + b) + c` and
/// `a + (b + c)` both exist, they are the same distribution.
pub proof fn lemma_independent_associative(
    a: Seq<Probability>,
    b: Seq<Probability>,
    c: Seq<Probability>,
    ab: Die,
    ab_c: Die,
    bc: Die,
    a_bc: Die,
)
    requires
        is_distribution(a),
        is_distribution(b),
        is_distribution(c),
        chain_outcome(a, repeat(b, a.len()), true, Some(ab)),
        chain_outcome(ab@, repeat(c, ab@.len()), true, Some(ab_c)),
        chain_outcome(b, repeat(c, b.len()), true, Some(bc)),
        chain_outcome(a, repeat(bc@, a.len()), true, Some(a_bc)),
    ensures
        ab_c@ == a_bc@,
{
    let x = ab@;
    let y = bc@;
    lemma_independent_fits(a, b);
    lemma_independent_fits(x, c);
    lemma_independent_fits(b, c);
    lemma_independent_fits(a, y);
    lemma_independent_facts(a, b);
    lemma_independent_facts(x, c);
    lemma_independent_facts(b, c);
    lemma_independent_facts(a, y);
    let da = a[0].chance.den as int;
    let db = b[0].chance.den as int;
    let dc = c[0].chance.den as int;
    let dab = da * db;
    let dbc = db * dc;
    assert(x[0].chance.den == dab);
    assert(y[0].chance.den == dbc);
    let d = dab * dc;
    assert(d == da * dbc) by (nonlinear_arith)
        requires
            d == dab * dc,
            dab == da * db,
            dbc == db * dc,
    ;
    assert(dab > 0 && dbc > 0 && d > 0) by (nonlinear_arith)
        requires
            dab == da * db,
            dbc == db * dc,
            d == dab * dc,
            da > 0,
            db > 0,
            dc > 0,
    ;
    let r1 = chain_raw(x, repeat(c, x.len()), true);
    let r2 = chain_raw(a, repeat(y, a.len()), true);
    let rab = chain_raw(a, repeat(b, a.len()), true);
    let rbc = chain_raw(b, repeat(c, b.len()), true);
    assert forall|g: spec_fn(int) -> int| #[trigger] mass(ab_c@, d, g) == mass(a_bc@, d, g) by {
        assert(mass(ab_c@, d, g) == mass(r1, d, g));
        assert(mass(a_bc@, d, g) == mass(r2, d, g));
        lemma_grid_as_mass(x, dab, c, g);
        assert(mass(x, dab, follow(c, g)) == mass(rab, dab, follow(c, g)));
        assert forall|i: int| 0 <= i < a.len() implies row_mass(#[trigger] a[i], b, follow(c, g)) == row_mass(a[i], y, g) by {
            let u = a[i].value as int;
            lemma_row_factor(a[i], b, follow(c, g));
            lemma_row_factor(a[i], y, g);
            lemma_follow_grid(b, c, g, u);
            lemma_shifted_as_mass(y, dbc, g, u);
            assert(mass(y, dbc, shift(g, u)) == mass(rbc, dbc, shift(g, u)));
        }
        lemma_grid_rows(a, b, follow(c, g), y, g);
    }
    assert forall|v: int| has_value(ab_c@, v) <==> has_value(a_bc@, v) by {
        assert(has_value(ab_c@, v) <==> has_value(r1, v));
        assert(has_value(a_bc@, v) <==> has_value(r2, v));
        if has_value(r1, v) {
            let (i, k) = choose|i: int, k: int| 0 <= i < x.len() && 0 <= k < c.len() && #[trigger] x[i].value + #[trigger] c[k].value == v;
            assert(has_value(x, x[i].value as int));
            assert(has_value(rab, x[i].value as int));
            let (p, q) = choose|p: int, q: int| 0 <= p < a.len() && 0 <= q < b.len() && #[trigger] a[p].value + #[trigger] b[q].value == x[i].value;
            assert(b[q].value + c[k].value == b[q].value + c[k].value);
            assert(has_value(rbc, b[q].value + c[k].value));
            assert(has_value(y, b[q].value + c[k].value));
            let m = choose|m: int| 0 <= m < y.len() && y[m].value == b[q].value + c[k].value;
            assert(a[p].value + y[m].value == v);
            assert(has_value(r2, v));
        }
        if has_value(r2, v) {
            let (p, m) = choose|p: int, m: int| 0 <= p < a.len() && 0 <= m < y.len() && #[trigger] a[p].value + #[trigger] y[m].value == v;
            assert(has_value(y, y[m].value as int));
            assert(has_value(rbc, y[m].value as int));
            let (q, k) = choose|q: int, k: int| 0 <= q < b.len() && 0 <= k < c.len() && #[trigger] b[q].value + #[trigger] c[k].value == y[m].value;
            assert(a[p].value + b[q].value == a[p].value + b[q].value);
            assert(has_value(rab, a[p].value + b[q].value));
            assert(has_value(x, a[p].value + b[q].value));
            let i = choose|i: int| 0 <= i < x.len() && x[i].value == a[p].value + b[q].value;
            assert(x[i].value + c[k].value == v);
            assert(has_value(r1, v));
        }
    }
    assert(all_over(ab_c@, d));
    assert(all_over(a_bc@, d));
    lemma_canonical_unique(ab_c@, a_bc@, d);
}

proof fn lemma_chain_neutral_raw(a: Seq<Probability>, outs: Seq<Seq<Probability>>)
    requires
        outs.len() >= a.len(),
        forall|i: int| 0 <= i < a.len() ==> #[trigger] outs[i] == neutral(),
    ensures
        chain_raw(a, outs, true) == a,
        chain_fits(a, outs, true),
    decreases a.len(),
{
    if a.len() > 0 {
        let al = a.drop_last();
        assert forall|i: int| 0 <= i < al.len() implies #[trigger] outs[i] == neutral() by {
            assert(outs[i] == neutral());
        }
        lemma_chain_neutral_raw(al, outs);
        let x = a.last();
        assert(outs[a.len() - 1] == neutral());
        let r = row(x, neutral(), true);
        assert(r[0].chance.num == x.chance.num && r[0].chance.den == x.chance.den);
        assert(r =~= seq![x]);
        assert(a =~= al + seq![x]);
        assert forall|i: int| 0 <= i < a.len() implies row_fits(#[trigger] a[i], outs[i], true) by {
            assert(outs[i] == neutral());
            assert(neutral()[0].value == 0);
        }
    }
}

/// The neutral distribution is the identity of dependent chaining: where
/// every outcome is followed by it, the result exists and is the
/// distribution itself.
pub proof fn lemma_neutral_identity(a: Seq<Probability>, r: Option<Die>)
    requires
        is_distribution(a),
        chain_outcome(a, repeat(neutral(), a.len()), true, r),
    ensures
        r is Some,
        r->0@ == a,
{
    let outs = repeat(neutral(), a.len());
    assert forall|i: int| 0 <= i < a.len() implies #[trigger] outs[i] == neutral() by {}
    lemma_chain_neutral_raw(a, outs);
    let den = a[0].chance.den as int;
    lemma_common_den_uniform(a, den);
    assert(compress_fits(a));
    assert(built(a, r->0@));
    lemma_round_trip(a, r->0@);
}

} // verus!
