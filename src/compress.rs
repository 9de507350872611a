//! The canonical form of a list of outcomes: each value once, in ascending
//! order, with the chances of equal values summed.
use vstd::prelude::*;
use crate::chance::{Chance, lcm, gcd_u64, lemma_gcd_divides, lemma_lcm, lemma_lcm_trivial};
use crate::probability::Probability;

verus! {

/// Every chance in `s` has a positive denominator.
pub open spec fn valid_chances(s: Seq<Probability>) -> bool {
    forall|i: int| 0 <= i < s.len() ==> (#[trigger] s[i]).chance.den > 0
}

/// Values strictly increase along `s`.
pub open spec fn strictly_ascending(s: Seq<Probability>) -> bool {
    forall|i: int, j: int| 0 <= i < j < s.len() ==> s[i].value < s[j].value
}

/// Some outcome of `s` has value `v`.
pub open spec fn has_value(s: Seq<Probability>, v: int) -> bool {
    exists|i: int| 0 <= i < s.len() && s[i].value == v
}

/// Every chance in `s` has denominator `l`.
pub open spec fn all_over(s: Seq<Probability>, l: int) -> bool {
    forall|i: int| 0 <= i < s.len() ==> (#[trigger] s[i]).chance.den == l
}

/// The least common multiple of all denominators in `s` (one for none).
pub open spec fn common_den(s: Seq<Probability>) -> nat
    decreases s.len(),
{
    if s.len() == 0 {
        1
    } else {
        lcm(common_den(s.drop_last()), s.last().chance.den as nat)
    }
}

/// The numerator of `p`'s chance over the denominator `l`.
pub open spec fn weight(p: Probability, l: int) -> int {
    p.chance.num * (l / p.chance.den as int)
}

/// The chance-weighted sum of `g` over the values of `s`, over the
/// denominator `l`: the sum of `chance * g(value)`, times `l`.
pub open spec fn mass(s: Seq<Probability>, l: int, g: spec_fn(int) -> int) -> int
    decreases s.len(),
{
    if s.len() == 0 {
        0
    } else {
        mass(s.drop_last(), l, g) + weight(s.last(), l) * g(s.last().value as int)
    }
}

/// The function that is one everywhere: its mass is the total chance.
pub open spec fn one() -> spec_fn(int) -> int {
    |v: int| 1int
}

/// The function that is one at `v` and zero elsewhere: its mass is the
/// chance of `v`.
pub open spec fn at(v: int) -> spec_fn(int) -> int {
    |x: int| if x == v { 1int } else { 0int }
}

/// `r` is the compression of `s`: values ascending and distinct, the same
/// values as `s`, all chances over the common denominator of `s`, and each
/// value with the sum of the chances it has in `s` (so that every
/// chance-weighted sum, the total chance among them, is kept).
pub open spec fn is_compression(r: Seq<Probability>, s: Seq<Probability>) -> bool {
    &&& strictly_ascending(r)
    &&& all_over(r, common_den(s) as int)
    &&& forall|v: int| has_value(r, v) <==> has_value(s, v)
    &&& forall|g: spec_fn(int) -> int| #[trigger] mass(r, common_den(s) as int, g) == mass(s, common_den(s) as int, g)
}

/// The compression of `s` can be written with 64-bit numerators and
/// denominators.
pub open spec fn compress_fits(s: Seq<Probability>) -> bool {
    common_den(s) <= u64::MAX && mass(s, common_den(s) as int, one()) <= u64::MAX
}

/// A distribution in canonical form: not empty, values ascending and
/// distinct, one positive denominator for all chances, and a total numerator
/// that fits in 64 bits.
pub open spec fn is_distribution(s: Seq<Probability>) -> bool {
    &&& s.len() > 0
    &&& strictly_ascending(s)
    &&& s[0].chance.den > 0
    &&& all_over(s, s[0].chance.den as int)
    &&& mass(s, s[0].chance.den as int, one()) <= u64::MAX
}

pub proof fn lemma_mass_concat(a: Seq<Probability>, b: Seq<Probability>, l: int, g: spec_fn(int) -> int)
    ensures
        mass(a + b, l, g) == mass(a, l, g) + mass(b, l, g),
    decreases b.len(),
{
    if b.len() == 0 {
        assert(a + b =~= a);
    } else {
        assert((a + b).drop_last() =~= a + b.drop_last());
        lemma_mass_concat(a, b.drop_last(), l, g);
    }
}

pub proof fn lemma_weight_nonneg(p: Probability, l: int)
    requires
        l >= 0,
        p.chance.den > 0,
    ensures
        weight(p, l) >= 0,
{
    let q = l / p.chance.den as int;
    assert(q >= 0);
    assert(p.chance.num * q >= 0) by (nonlinear_arith)
        requires
            q >= 0,
    ;
}

/// With every denominator `l`, the weight of an outcome is its numerator.
pub proof fn lemma_weight_over(p: Probability, l: int)
    requires
        l > 0,
        p.chance.den == l,
    ensures
        weight(p, l) == p.chance.num,
{
    vstd::arithmetic::div_mod::lemma_div_by_self(l);
}

/// A prefix has no more mass than the whole, for non-negative `g`.
pub proof fn lemma_mass_prefix(s: Seq<Probability>, k: int, l: int, g: spec_fn(int) -> int)
    requires
        0 <= k <= s.len(),
        l >= 0,
        valid_chances(s),
        forall|v: int| #[trigger] g(v) >= 0,
    ensures
        mass(s.take(k), l, g) <= mass(s, l, g),
        mass(s.take(k), l, g) >= 0,
    decreases s.len(),
{
    if k == s.len() {
        assert(s.take(k) =~= s);
        lemma_mass_nonneg(s, l, g);
    } else {
        let t = s.drop_last();
        assert(s.take(k) =~= t.take(k));
        lemma_mass_prefix(t, k, l, g);
        lemma_weight_nonneg(s.last(), l);
        let w = weight(s.last(), l);
        let gv = g(s.last().value as int);
        assert(w * gv >= 0) by (nonlinear_arith)
            requires
                w >= 0,
                gv >= 0,
        ;
    }
}

pub proof fn lemma_mass_nonneg(s: Seq<Probability>, l: int, g: spec_fn(int) -> int)
    requires
        l >= 0,
        valid_chances(s),
        forall|v: int| #[trigger] g(v) >= 0,
    ensures
        mass(s, l, g) >= 0,
    decreases s.len(),
{
    if s.len() > 0 {
        lemma_mass_nonneg(s.drop_last(), l, g);
        lemma_weight_nonneg(s.last(), l);
        let w = weight(s.last(), l);
        let gv = g(s.last().value as int);
        assert(w * gv >= 0) by (nonlinear_arith)
            requires
                w >= 0,
                gv >= 0,
        ;
    }
}

/// The weight of one outcome is at most the total.
pub proof fn lemma_weight_le_total(s: Seq<Probability>, i: int, l: int)
    requires
        0 <= i < s.len(),
        l >= 0,
        valid_chances(s),
    ensures
        0 <= weight(s[i], l) <= mass(s, l, one()),
    decreases s.len(),
{
    lemma_weight_nonneg(s[i], l);
    if i == s.len() - 1 {
        lemma_mass_nonneg(s.drop_last(), l, one());
    } else {
        lemma_weight_le_total(s.drop_last(), i, l);
        lemma_weight_nonneg(s.last(), l);
    }
}

/// The mass is zero where `g` vanishes on every value.
pub proof fn lemma_mass_zero(s: Seq<Probability>, l: int, g: spec_fn(int) -> int)
    requires
        forall|i: int| 0 <= i < s.len() ==> g(#[trigger] s[i].value as int) == 0,
    ensures
        mass(s, l, g) == 0,
    decreases s.len(),
{
    if s.len() > 0 {
        lemma_mass_zero(s.drop_last(), l, g);
        assert(g(s[s.len() - 1].value as int) == 0);
    }
}

/// Two lists with the same weights and the same `g` of their values,
/// pointwise, have the same mass.
pub proof fn lemma_mass_pointwise(
    s: Seq<Probability>,
    ls: int,
    t: Seq<Probability>,
    lt: int,
    g: spec_fn(int) -> int,
)
    requires
        s.len() == t.len(),
        forall|i: int|
            0 <= i < s.len() ==> g((#[trigger] s[i]).value as int) == g(t[i].value as int) && weight(s[i], ls)
                == weight(t[i], lt),
    ensures
        mass(s, ls, g) == mass(t, lt, g),
    decreases s.len(),
{
    if s.len() > 0 {
        lemma_mass_pointwise(s.drop_last(), ls, t.drop_last(), lt, g);
        assert(g(s[s.len() - 1].value as int) == g(t[t.len() - 1].value as int));
    }
}

/// The common denominator is positive, and no prefix has a larger one.
pub proof fn lemma_common_den(s: Seq<Probability>, k: int)
    requires
        valid_chances(s),
        0 <= k <= s.len(),
    ensures
        common_den(s) > 0,
        common_den(s.take(k)) <= common_den(s),
    decreases s.len(),
{
    if s.len() > 0 {
        let t = s.drop_last();
        if k == s.len() {
            assert(s.take(k) =~= s);
            lemma_common_den(t, 0);
        } else {
            assert(s.take(k) =~= t.take(k));
            lemma_common_den(t, k);
        }
        lemma_lcm(common_den(t), s.last().chance.den as nat);
    }
}

proof fn lemma_divides_transitive(a: int, b: int, c: int)
    requires
        a > 0,
        b > 0,
        c > 0,
        a % b == 0,
        b % c == 0,
    ensures
        a % c == 0,
{
    vstd::arithmetic::div_mod::lemma_fundamental_div_mod(a, b);
    vstd::arithmetic::div_mod::lemma_fundamental_div_mod(b, c);
    let q = a / b;
    let r = b / c;
    assert(a == (q * r) * c) by (nonlinear_arith)
        requires
            a == b * q + a % b,
            b == c * r + b % c,
            a % b == 0,
            b % c == 0,
    ;
    vstd::arithmetic::div_mod::lemma_mod_multiples_basic(q * r, c);
}

/// The common denominator is a multiple of every denominator, so a chance
/// over it, `weight(p, common_den(s)) / common_den(s)`, is exactly `p`'s.
pub proof fn lemma_common_den_multiple(s: Seq<Probability>, i: int)
    requires
        valid_chances(s),
        0 <= i < s.len(),
    ensures
        common_den(s) % (s[i].chance.den as nat) == 0,
        weight(s[i], common_den(s) as int) * s[i].chance.den == s[i].chance.num * common_den(s),
    decreases s.len(),
{
    let t = s.drop_last();
    let l = common_den(t);
    let d = s.last().chance.den as nat;
    lemma_common_den(t, 0);
    lemma_lcm(l, d);
    if i < s.len() - 1 {
        assert(t[i] == s[i]);
        lemma_common_den_multiple(t, i);
        lemma_divides_transitive(common_den(s) as int, l as int, s[i].chance.den as int);
    }
    let c = common_den(s) as int;
    let di = s[i].chance.den as int;
    vstd::arithmetic::div_mod::lemma_fundamental_div_mod(c, di);
    assert((c / di) * di == c) by (nonlinear_arith)
        requires
            c == di * (c / di) + c % di,
            c % di == 0,
    ;
    assert(s[i].chance.num * (c / di) * di == s[i].chance.num * c) by (nonlinear_arith)
        requires
            (c / di) * di == c,
    ;
}

/// Where every denominator is `d`, the common denominator is `d`.
pub proof fn lemma_common_den_uniform(s: Seq<Probability>, d: int)
    requires
        s.len() > 0,
        d > 0,
        all_over(s, d),
    ensures
        common_den(s) == d,
    decreases s.len(),
{
    lemma_lcm_trivial(d as nat);
    assert(s[s.len() - 1].chance.den == d);
    if s.len() > 1 {
        assert forall|i: int| 0 <= i < s.drop_last().len() implies (#[trigger] s.drop_last()[i]).chance.den == d by {
            assert(s[i].chance.den == d);
        }
        lemma_common_den_uniform(s.drop_last(), d);
    } else {
        assert(common_den(s.drop_last()) == 1);
    }
    assert(common_den(s) == lcm(common_den(s.drop_last()), s.last().chance.den as nat));
}

/// Two canonical lists over one denominator, with the same values and the
/// same masses, are equal.
pub proof fn lemma_canonical_unique(r1: Seq<Probability>, r2: Seq<Probability>, l: int)
    requires
        l > 0,
        strictly_ascending(r1),
        strictly_ascending(r2),
        all_over(r1, l),
        all_over(r2, l),
        forall|v: int| has_value(r1, v) <==> has_value(r2, v),
        forall|g: spec_fn(int) -> int| #[trigger] mass(r1, l, g) == mass(r2, l, g),
    ensures
        r1 == r2,
    decreases r1.len(),
{
    if r1.len() == 0 {
        if r2.len() > 0 {
            assert(has_value(r2, r2[0].value as int));
        }
        assert(r1 =~= r2);
    } else {
        if r2.len() == 0 {
            assert(has_value(r1, r1[0].value as int));
        }
        let n1 = r1.len() - 1;
        let n2 = r2.len() - 1;
        let x1 = r1[n1];
        let x2 = r2[n2];
        assert(has_value(r1, x1.value as int));
        assert(has_value(r2, x2.value as int));
        let j2 = choose|j: int| 0 <= j < r2.len() && r2[j].value == x1.value;
        let j1 = choose|j: int| 0 <= j < r1.len() && r1[j].value == x2.value;
        assert(x1.value == x2.value) by {
            if j2 < n2 {
                assert(r2[j2].value < x2.value);
            }
            if j1 < n1 {
                assert(r1[j1].value < x1.value);
            }
        }
        let t1 = r1.drop_last();
        let t2 = r2.drop_last();
        let v = x1.value as int;
        assert forall|u: int| has_value(t1, u) <==> has_value(t2, u) by {
            if has_value(t1, u) {
                let i = choose|i: int| 0 <= i < t1.len() && t1[i].value == u;
                assert(r1[i].value == u);
                assert(u < v);
                assert(has_value(r2, u));
                let k = choose|k: int| 0 <= k < r2.len() && r2[k].value == u;
                assert(k != n2);
                assert(t2[k].value == u);
            }
            if has_value(t2, u) {
                let i = choose|i: int| 0 <= i < t2.len() && t2[i].value == u;
                assert(r2[i].value == u);
                assert(u < v);
                assert(has_value(r1, u));
                let k = choose|k: int| 0 <= k < r1.len() && r1[k].value == u;
                assert(k != n1);
                assert(t1[k].value == u);
            }
        }
        lemma_weight_over(x1, l);
        lemma_weight_over(x2, l);
        assert forall|i: int| 0 <= i < t1.len() implies at(v)(#[trigger] t1[i].value as int) == 0 by {
            assert(r1[i].value < x1.value);
        }
        assert forall|i: int| 0 <= i < t2.len() implies at(v)(#[trigger] t2[i].value as int) == 0 by {
            assert(r2[i].value < x2.value);
        }
        lemma_mass_zero(t1, l, at(v));
        lemma_mass_zero(t2, l, at(v));
        assert(mass(r1, l, at(v)) == mass(r2, l, at(v)));
        assert(x1.chance.num == x2.chance.num);
        assert forall|g: spec_fn(int) -> int| #[trigger] mass(t1, l, g) == mass(t2, l, g) by {
            assert(mass(r1, l, g) == mass(r2, l, g));
        }
        lemma_canonical_unique(t1, t2, l);
        assert(x1 == x2);
        assert(r1 =~= t1.push(x1));
        assert(r2 =~= t2.push(x2));
    }
}

pub proof fn lemma_has_value_concat(a: Seq<Probability>, b: Seq<Probability>, v: int)
    ensures
        has_value(a + b, v) <==> has_value(a, v) || has_value(b, v),
{
    if has_value(a + b, v) {
        let i = choose|i: int| 0 <= i < (a + b).len() && (a + b)[i].value == v;
        if i < a.len() {
            assert(a[i].value == v);
        } else {
            assert(b[i - a.len()].value == v);
        }
    }
    if has_value(a, v) {
        let i = choose|i: int| 0 <= i < a.len() && a[i].value == v;
        assert((a + b)[i].value == v);
    }
    if has_value(b, v) {
        let i = choose|i: int| 0 <= i < b.len() && b[i].value == v;
        assert((a + b)[a.len() + i].value == v);
    }
}

/// One step of a merge: `s.take(i + 1)` is `s.take(i)` and `s[i]`.
proof fn lemma_take_step(s: Seq<Probability>, i: int, l: int)
    requires
        0 <= i < s.len(),
    ensures
        forall|g: spec_fn(int) -> int| #[trigger] mass(s.take(i + 1), l, g) == mass(s.take(i), l, g) + weight(s[i], l) * g(s[i].value as int),
        forall|v: int| #[trigger] has_value(s.take(i + 1), v) <==> has_value(s.take(i), v) || s[i].value == v,
{
    assert(s.take(i + 1) =~= s.take(i) + seq![s[i]]);
    assert forall|g: spec_fn(int) -> int| #[trigger] mass(s.take(i + 1), l, g) == mass(s.take(i), l, g) + weight(s[i], l) * g(s[i].value as int) by {
        assert(s.take(i + 1).drop_last() =~= s.take(i));
    }
    assert forall|v: int| #[trigger] has_value(s.take(i + 1), v) <==> has_value(s.take(i), v) || s[i].value == v by {
        lemma_has_value_concat(s.take(i), seq![s[i]], v);
        if s[i].value == v {
            assert(seq![s[i]][0].value == v);
        }
    }
}

/// Merges two canonical lists over the denominator `l`, summing the chances
/// of values that occur in both.
fn merge(left: Vec<Probability>, right: Vec<Probability>, l: u64) -> (r: Vec<Probability>)
    requires
        l > 0,
        strictly_ascending(left@),
        strictly_ascending(right@),
        all_over(left@, l as int),
        all_over(right@, l as int),
        mass(left@, l as int, one()) + mass(right@, l as int, one()) <= u64::MAX,
    ensures
        strictly_ascending(r@),
        all_over(r@, l as int),
        forall|v: int| has_value(r@, v) <==> has_value(left@, v) || has_value(right@, v),
        forall|g: spec_fn(int) -> int| #[trigger] mass(r@, l as int, g) == mass(left@, l as int, g) + mass(right@, l as int, g),
{
    let ghost li = l as int;
    let mut out: Vec<Probability> = Vec::new();
    let mut i: usize = 0;
    let mut j: usize = 0;
    assert(left@.take(0) =~= Seq::<Probability>::empty());
    assert(right@.take(0) =~= Seq::<Probability>::empty());
    while i < left.len() || j < right.len()
        invariant
            li == l as int,
            l > 0,
            i <= left.len(),
            j <= right.len(),
            strictly_ascending(left@),
            strictly_ascending(right@),
            all_over(left@, li),
            all_over(right@, li),
            mass(left@, li, one()) + mass(right@, li, one()) <= u64::MAX,
            strictly_ascending(out@),
            all_over(out@, li),
            out.len() > 0 && i < left.len() ==> out@.last().value < left@[i as int].value,
            out.len() > 0 && j < right.len() ==> out@.last().value < right@[j as int].value,
            forall|v: int| has_value(out@, v) <==> has_value(left@.take(i as int), v) || has_value(right@.take(j as int), v),
            forall|g: spec_fn(int) -> int| #[trigger] mass(out@, li, g) == mass(left@.take(i as int), li, g) + mass(right@.take(j as int), li, g),
        decreases left.len() + right.len() - i - j,
    {
        let ghost old_out = out@;
        let take_left = i < left.len() && (j == right.len() || left[i].value < right[j].value);
        let take_right = j < right.len() && (i == left.len() || right[j].value < left[i].value);
        if take_left {
            let p = left[i];
            out.push(p);
            proof {
                lemma_take_step(left@, i as int, li);
                lemma_weight_over(p, li);
                assert(out@ =~= old_out + seq![p]);
                assert forall|g: spec_fn(int) -> int| #[trigger] mass(out@, li, g) == mass(left@.take(i + 1), li, g) + mass(right@.take(j as int), li, g) by {
                    assert(out@.drop_last() =~= old_out);
                    assert(mass(out@, li, g) == mass(old_out, li, g) + weight(p, li) * g(p.value as int));
                }
                assert forall|v: int| has_value(out@, v) <==> has_value(left@.take(i + 1), v) || has_value(right@.take(j as int), v) by {
                    lemma_has_value_concat(old_out, seq![p], v);
                    if p.value == v {
                        assert(seq![p][0].value == v);
                    }
                    assert(has_value(old_out, v) <==> has_value(left@.take(i as int), v) || has_value(right@.take(j as int), v));
                }
            }
            i = i + 1;
        } else if take_right {
            let p = right[j];
            out.push(p);
            proof {
                lemma_take_step(right@, j as int, li);
                lemma_weight_over(p, li);
                assert(out@ =~= old_out + seq![p]);
                assert forall|g: spec_fn(int) -> int| #[trigger] mass(out@, li, g) == mass(left@.take(i as int), li, g) + mass(right@.take(j + 1), li, g) by {
                    assert(out@.drop_last() =~= old_out);
                    assert(mass(out@, li, g) == mass(old_out, li, g) + weight(p, li) * g(p.value as int));
                }
                assert forall|v: int| has_value(out@, v) <==> has_value(left@.take(i as int), v) || has_value(right@.take(j + 1), v) by {
                    lemma_has_value_concat(old_out, seq![p], v);
                    if p.value == v {
                        assert(seq![p][0].value == v);
                    }
                    assert(has_value(old_out, v) <==> has_value(left@.take(i as int), v) || has_value(right@.take(j as int), v));
                }
            }
            j = j + 1;
        } else {
            let a = left[i];
            let b = right[j];
            proof {
                lemma_weight_le_total(left@, i as int, li);
                lemma_weight_le_total(right@, j as int, li);
                lemma_weight_over(a, li);
                lemma_weight_over(b, li);
            }
            let p = Probability { value: a.value, chance: Chance { num: a.chance.num + b.chance.num, den: l } };
            out.push(p);
            proof {
                lemma_take_step(left@, i as int, li);
                lemma_take_step(right@, j as int, li);
                lemma_weight_over(p, li);
                assert(out@ =~= old_out + seq![p]);
                assert forall|g: spec_fn(int) -> int| #[trigger] mass(out@, li, g) == mass(left@.take(i + 1), li, g) + mass(right@.take(j + 1), li, g) by {
                    assert(out@.drop_last() =~= old_out);
                    assert(mass(out@, li, g) == mass(old_out, li, g) + weight(p, li) * g(p.value as int));
                    let gv = g(a.value as int);
                    assert((a.chance.num + b.chance.num) * gv == a.chance.num * gv + b.chance.num * gv) by (nonlinear_arith);
                    assert(weight(a, li) * g(a.value as int) + weight(b, li) * g(b.value as int) == weight(p, li) * gv);
                }
                assert forall|v: int| has_value(out@, v) <==> has_value(left@.take(i + 1), v) || has_value(right@.take(j + 1), v) by {
                    lemma_has_value_concat(old_out, seq![p], v);
                    if p.value == v {
                        assert(seq![p][0].value == v);
                    }
                    assert(has_value(old_out, v) <==> has_value(left@.take(i as int), v) || has_value(right@.take(j as int), v));
                }
            }
            i = i + 1;
            j = j + 1;
        }
    }
    assert(left@.take(left.len() as int) =~= left@);
    assert(right@.take(right.len() as int) =~= right@);
    out
}

/// Compresses `items[lo..hi]`, all of whose chances are over `l`, by
/// merging the compressed halves.
fn compress_range(items: &Vec<Probability>, lo: usize, hi: usize, l: u64) -> (r: Vec<Probability>)
    requires
        lo < hi <= items.len(),
        l > 0,
        all_over(items@, l as int),
        mass(items@.subrange(lo as int, hi as int), l as int, one()) <= u64::MAX,
    ensures
        strictly_ascending(r@),
        all_over(r@, l as int),
        forall|v: int| has_value(r@, v) <==> has_value(items@.subrange(lo as int, hi as int), v),
        forall|g: spec_fn(int) -> int| #[trigger] mass(r@, l as int, g) == mass(items@.subrange(lo as int, hi as int), l as int, g),
    decreases hi - lo,
{
    let ghost sub = items@.subrange(lo as int, hi as int);
    if hi - lo == 1 {
        let p = items[lo];
        let out = vec![p];
        proof {
            assert(sub =~= seq![p]);
            assert(out@ =~= seq![p]);
        }
        out
    } else {
        let mid = lo + (hi - lo) / 2;
        let ghost a = items@.subrange(lo as int, mid as int);
        let ghost b = items@.subrange(mid as int, hi as int);
        proof {
            assert(sub =~= a + b);
            lemma_mass_concat(a, b, l as int, one());
            assert forall|i: int| 0 <= i < sub.len() implies (#[trigger] sub[i]).chance.den > 0 by {
                assert(sub[i] == items@[lo + i]);
            }
            assert(a =~= sub.take(mid - lo));
            lemma_mass_prefix(sub, mid - lo, l as int, one());
            assert forall|i: int| 0 <= i < b.len() implies (#[trigger] b[i]).chance.den > 0 by {
                assert(b[i] == items@[mid + i]);
            }
            lemma_mass_nonneg(b, l as int, one());
        }
        let left = compress_range(items, lo, mid, l);
        let right = compress_range(items, mid, hi, l);
        let out = merge(left, right, l);
        proof {
            assert forall|v: int| has_value(out@, v) <==> has_value(sub, v) by {
                lemma_has_value_concat(a, b, v);
            }
            assert forall|g: spec_fn(int) -> int| #[trigger] mass(out@, l as int, g) == mass(sub, l as int, g) by {
                lemma_mass_concat(a, b, l as int, g);
            }
        }
        out
    }
}

/// Merges outcomes of equal value by summing their chances, and sorts the
/// result ascending by value. All chances of the result are over the least
/// common denominator of the input's chances.
///
/// `None` exactly where that denominator, or the total numerator over it,
/// does not fit in 64 bits.
pub fn compress_additive(values: &[Probability]) -> (r: Option<Vec<Probability>>)
    requires
        valid_chances(values@),
    ensures
        r is Some <==> compress_fits(values@),
        r matches Some(c) ==> is_compression(c@, values@),
{
    let n = values.len();
    // the common denominator
    let mut l: u64 = 1;
    let mut i: usize = 0;
    assert(values@.take(0) =~= Seq::<Probability>::empty());
    while i < n
        invariant
            n == values@.len(),
            i <= n,
            valid_chances(values@),
            l as nat == common_den(values@.take(i as int)),
            l > 0,
        decreases n - i,
    {
        let d = values[i].chance.den;
        let g = gcd_u64(l, d);
        proof {
            lemma_gcd_divides(l as nat, d as nat);
            assert(values@.take(i + 1).drop_last() =~= values@.take(i as int));
            lemma_lcm(l as nat, d as nat);
        }
        let q = l / g;
        match q.checked_mul(d) {
            Some(m) => {
                l = m;
            },
            None => {
                proof {
                    lemma_common_den(values@, i + 1);
                }
                return None;
            },
        }
        i = i + 1;
    }
    assert(values@.take(n as int) =~= values@);
    let ghost li = l as int;
    // every chance over the common denominator
    let mut scaled: Vec<Probability> = Vec::new();
    let mut total: u64 = 0;
    let mut k: usize = 0;
    while k < n
        invariant
            n == values@.len(),
            k <= n,
            valid_chances(values@),
            li == l as int,
            l > 0,
            l as nat == common_den(values@),
            scaled@.len() == k,
            forall|j: int| 0 <= j < k ==> (#[trigger] scaled@[j]).value == values@[j].value && scaled@[j].chance.num == weight(values@[j], li) && scaled@[j].chance.den == l,
            total as int == mass(values@.take(k as int), li, one()),
        decreases n - k,
    {
        let p = values[k];
        let factor = l / p.chance.den;
        proof {
            assert(values@.take(k + 1).drop_last() =~= values@.take(k as int));
            assert(values@.take(k + 1).last() == p);
            lemma_weight_nonneg(p, li);
            lemma_mass_prefix(values@, k + 1, li, one());
            lemma_mass_prefix(values@, k as int, li, one());
            let o = one()(p.value as int);
            let wp = weight(p, li);
            assert(o == 1);
            assert(wp * o == wp) by (nonlinear_arith)
                requires
                    o == 1,
            ;
            assert(mass(values@.take(k + 1), li, one()) == total + wp);
            assert(wp == p.chance.num * factor);
        }
        let w = match p.chance.num.checked_mul(factor) {
            Some(w) => w,
            None => {
                proof {
                    assert(mass(values@, li, one()) > u64::MAX);
                }
                return None;
            },
        };
        total = match total.checked_add(w) {
            Some(t) => t,
            None => {
                proof {
                    assert(mass(values@, li, one()) > u64::MAX);
                }
                return None;
            },
        };
        assert(total as int == mass(values@.take(k + 1), li, one()));
        scaled.push(Probability { value: p.value, chance: Chance { num: w, den: l } });
        k = k + 1;
    }
    assert(values@.take(n as int) =~= values@);
    proof {
        assert forall|j: int| 0 <= j < n implies (#[trigger] scaled@[j]).value == values@[j].value && weight(scaled@[j], li) == weight(values@[j], li) by {
            lemma_weight_over(scaled@[j], li);
        }
        assert forall|g: spec_fn(int) -> int| #[trigger] mass(scaled@, li, g) == mass(values@, li, g) by {
            lemma_mass_pointwise(scaled@, li, values@, li, g);
        }
        assert forall|v: int| has_value(scaled@, v) <==> has_value(values@, v) by {
            if has_value(scaled@, v) {
                let j = choose|j: int| 0 <= j < scaled@.len() && scaled@[j].value == v;
                assert(values@[j].value == v);
            }
            if has_value(values@, v) {
                let j = choose|j: int| 0 <= j < values@.len() && values@[j].value == v;
                assert(scaled@[j].value == v);
            }
        }
    }
    if n == 0 {
        let out: Vec<Probability> = Vec::new();
        proof {
            assert forall|g: spec_fn(int) -> int| #[trigger] mass(out@, li, g) == mass(values@, li, g) by {
                assert(values@.len() == 0);
            }
        }
        return Some(out);
    }
    proof {
        assert(scaled@.subrange(0, n as int) =~= scaled@);
    }
    let out = compress_range(&scaled, 0, n, l);
    Some(out)
}

/// A mass of one-numerator chances over their own denominator counts them.
pub proof fn lemma_mass_counts(s: Seq<Probability>, l: int)
    requires
        l > 0,
        all_over(s, l),
        forall|i: int| 0 <= i < s.len() ==> (#[trigger] s[i]).chance.num == 1,
    ensures
        mass(s, l, one()) == s.len(),
    decreases s.len(),
{
    if s.len() > 0 {
        let t = s.drop_last();
        assert forall|i: int| 0 <= i < t.len() implies (#[trigger] t[i]).chance.den == l && t[i].chance.num == 1 by {
            assert(t[i] == s[i]);
        }
        lemma_mass_counts(t, l);
        assert(s.last() == s[s.len() - 1]);
        lemma_weight_over(s.last(), l);
    }
}

/// The compression of a list that is already canonical is that list.
pub proof fn lemma_compression_of_canonical(r: Seq<Probability>, s: Seq<Probability>, d: int)
    requires
        s.len() > 0,
        d > 0,
        strictly_ascending(s),
        all_over(s, d),
        is_compression(r, s),
    ensures
        r == s,
{
    lemma_common_den_uniform(s, d);
    lemma_canonical_unique(r, s, d);
}

/// The compression of a non-empty list that fits is a distribution.
pub proof fn lemma_compression_is_distribution(r: Seq<Probability>, s: Seq<Probability>)
    requires
        s.len() > 0,
        valid_chances(s),
        compress_fits(s),
        is_compression(r, s),
    ensures
        is_distribution(r),
{
    assert(has_value(s, s[0].value as int));
    assert(has_value(r, s[0].value as int));
    lemma_common_den(s, 0);
    assert(mass(r, common_den(s) as int, one()) == mass(s, common_den(s) as int, one()));
}

} // verus!
