//! Pools of independent distributions where the highest or lowest results
//! are dropped before the rest are summed.
use vstd::prelude::*;
use crate::chance::Chance;
use crate::probability::Probability;
use crate::compress::{compress_fits, is_compression, is_distribution, valid_chances};
use crate::compose::{repeat, views};
use crate::die::{Die, built, built_fits, neutral, range_of, sided};

verus! {

/// Which end of a sorted combination is dropped.
#[derive(Clone, Copy, Debug, PartialEq, Eq, Structural)]
pub enum DropType {
    /// Drop the highest values.
    High,
    /// Drop the lowest values.
    Low,
}

/// `s` with `x` placed before its first element that is not smaller.
pub open spec fn insert_sorted(s: Seq<i32>, x: i32) -> Seq<i32>
    decreases s.len(),
{
    if s.len() == 0 {
        seq![x]
    } else if x <= s[0] {
        seq![x] + s
    } else {
        seq![s[0]] + insert_sorted(s.drop_first(), x)
    }
}

/// `s` sorted ascending, by insertion.
pub open spec fn sort_seq(s: Seq<i32>) -> Seq<i32>
    decreases s.len(),
{
    if s.len() == 0 {
        Seq::empty()
    } else {
        insert_sorted(sort_seq(s.drop_last()), s.last())
    }
}

/// The sum of the values.
pub open spec fn seq_sum(s: Seq<i32>) -> int
    decreases s.len(),
{
    if s.len() == 0 {
        0
    } else {
        seq_sum(s.drop_last()) + s.last()
    }
}

/// The values that remain of a combination once `drop` of its highest or
/// lowest values are dropped.
pub open spec fn kept(vals: Seq<i32>, drop: int, drop_type: DropType) -> Seq<i32> {
    let sorted = sort_seq(vals);
    if drop >= vals.len() {
        Seq::empty()
    } else {
        match drop_type {
            DropType::High => sorted.take(vals.len() - drop),
            DropType::Low => sorted.skip(drop),
        }
    }
}

/// Values never decrease along `s`.
pub open spec fn ascending(s: Seq<i32>) -> bool {
    forall|i: int, j: int| 0 <= i < j < s.len() ==> s[i] <= s[j]
}

proof fn lemma_insert_sorted(s: Seq<i32>, x: i32)
    requires
        ascending(s),
    ensures
        ascending(insert_sorted(s, x)),
        insert_sorted(s, x).to_multiset() =~= s.to_multiset().insert(x),
    decreases s.len(),
{
    broadcast use vstd::seq_lib::group_to_multiset_ensures;

    let r = insert_sorted(s, x);
    if s.len() == 0 {
        assert(r =~= Seq::<i32>::empty().push(x));
        assert(s =~= Seq::<i32>::empty());
    } else if x <= s[0] {
        assert(r =~= s.insert(0, x));
    } else {
        let rest = s.drop_first();
        let t = insert_sorted(rest, x);
        assert forall|i: int, j: int| 0 <= i < j < rest.len() implies rest[i] <= rest[j] by {
            assert(rest[i] == s[i + 1] && rest[j] == s[j + 1]);
        }
        lemma_insert_sorted(rest, x);
        assert(r =~= t.insert(0, s[0]));
        assert(s =~= rest.insert(0, s[0]));
        assert forall|k: int| 0 <= k < t.len() implies s[0] <= #[trigger] t[k] by {
            assert(t.contains(t[k]));
            assert(t.to_multiset().count(t[k]) > 0);
            if t[k] != x {
                assert(rest.to_multiset().count(t[k]) > 0);
                assert(rest.contains(t[k]));
                let m = choose|m: int| 0 <= m < rest.len() && rest[m] == t[k];
                assert(s[0] <= s[m + 1]);
            }
        }
        assert forall|i: int, j: int| 0 <= i < j < r.len() implies r[i] <= r[j] by {
            if i > 0 {
                assert(r[i] == t[i - 1] && r[j] == t[j - 1]);
            } else {
                assert(r[j] == t[j - 1]);
            }
        }
    }
}

/// `sort_seq` sorts: its result is ascending and holds the same values, as
/// often, as its argument.
pub proof fn lemma_sort_seq(s: Seq<i32>)
    ensures
        ascending(sort_seq(s)),
        sort_seq(s).to_multiset() =~= s.to_multiset(),
    decreases s.len(),
{
    broadcast use vstd::seq_lib::group_to_multiset_ensures;

    if s.len() == 0 {
        assert(sort_seq(s) =~= s);
    } else {
        lemma_sort_seq(s.drop_last());
        lemma_insert_sorted(sort_seq(s.drop_last()), s.last());
        assert(s =~= s.drop_last().push(s.last()));
    }
}

proof fn lemma_insert_at(s: Seq<i32>, x: i32, p: int)
    requires
        0 <= p <= s.len(),
        forall|k: int| 0 <= k < p ==> #[trigger] s[k] < x,
        p < s.len() ==> x <= s[p],
    ensures
        insert_sorted(s, x) == s.take(p) + seq![x] + s.skip(p),
    decreases s.len(),
{
    if s.len() == 0 {
        assert(s.take(p) + seq![x] + s.skip(p) =~= seq![x]);
    } else if p == 0 {
        assert(s.take(p) + seq![x] + s.skip(p) =~= seq![x] + s);
    } else {
        let t = s.drop_first();
        assert forall|k: int| 0 <= k < p - 1 implies #[trigger] t[k] < x by {
            assert(t[k] == s[k + 1]);
        }
        lemma_insert_at(t, x, p - 1);
        assert(s.take(p) + seq![x] + s.skip(p) =~= seq![s[0]] + (t.take(p - 1) + seq![x] + t.skip(p - 1)));
    }
}

pub proof fn lemma_sort_len(s: Seq<i32>)
    ensures
        sort_seq(s).len() == s.len(),
    decreases s.len(),
{
    if s.len() > 0 {
        lemma_sort_len(s.drop_last());
        lemma_insert_len(sort_seq(s.drop_last()), s.last());
    }
}

proof fn lemma_insert_len(s: Seq<i32>, x: i32)
    ensures
        insert_sorted(s, x).len() == s.len() + 1,
    decreases s.len(),
{
    if s.len() > 0 {
        lemma_insert_len(s.drop_first(), x);
    }
}

/// The values sorted ascending.
fn sort_values(values: &Vec<i32>) -> (r: Vec<i32>)
    ensures
        r@ == sort_seq(values@),
{
    let mut out: Vec<i32> = Vec::new();
    let mut i: usize = 0;
    assert(values@.take(0) =~= Seq::<i32>::empty());
    while i < values.len()
        invariant
            i <= values@.len(),
            out@ == sort_seq(values@.take(i as int)),
        decreases values@.len() - i,
    {
        let x = values[i];
        let mut p: usize = 0;
        while p < out.len() && out[p] < x
            invariant
                p <= out@.len(),
                forall|k: int| 0 <= k < p ==> #[trigger] out@[k] < x,
            decreases out@.len() - p,
        {
            p = p + 1;
        }
        proof {
            lemma_insert_at(out@, x, p as int);
            assert(values@.take(i + 1).drop_last() =~= values@.take(i as int));
            assert(out@.take(p as int) + seq![x] + out@.skip(p as int) =~= out@.insert(p as int, x));
        }
        out.insert(p, x);
        i = i + 1;
    }
    assert(values@.take(values@.len() as int) =~= values@);
    out
}

/// A combination of one value from each of several distributions, with the
/// numerator and denominator of the product of their chances.
pub type Combination = (Seq<i32>, int, int);

/// `c` followed by each outcome of `d`.
pub open spec fn extend_one(c: Combination, d: Seq<Probability>) -> Seq<Combination> {
    d.map_values(|p: Probability| (c.0.push(p.value), c.1 * p.chance.num, c.2 * p.chance.den))
}

/// Each combination of `cs`, in order, followed by each outcome of `d`.
pub open spec fn extend(cs: Seq<Combination>, d: Seq<Probability>) -> Seq<Combination>
    decreases cs.len(),
{
    if cs.len() == 0 {
        Seq::empty()
    } else {
        extend(cs.drop_last(), d) + extend_one(cs.last(), d)
    }
}

/// Every combination of one outcome from each of `ds`, in lexicographic
/// order of the outcomes' positions.
pub open spec fn combos(ds: Seq<Seq<Probability>>) -> Seq<Combination>
    decreases ds.len(),
{
    if ds.len() == 0 {
        seq![(Seq::empty(), 1, 1)]
    } else {
        extend(combos(ds.drop_last()), ds.last())
    }
}

/// Every combination's chance fits in 64 bits.
pub open spec fn chances_fit(cs: Seq<Combination>) -> bool {
    forall|i: int| 0 <= i < cs.len() ==> (#[trigger] cs[i]).1 <= u64::MAX && cs[i].2 <= u64::MAX
}

/// The chances of the combinations fit in 64 bits, for the first `k`
/// distributions, whatever `k`.
pub open spec fn combos_fit(ds: Seq<Seq<Probability>>) -> bool {
    forall|k: int| 0 <= k <= ds.len() ==> chances_fit(#[trigger] combos(ds.take(k)))
}

/// The combinations held in a vector.
pub open spec fn combination_views(v: Seq<(Vec<i32>, Chance)>) -> Seq<Combination> {
    v.map_values(|c: (Vec<i32>, Chance)| (c.0@, c.1.num as int, c.1.den as int))
}

proof fn lemma_extend_concat(a: Seq<Combination>, b: Seq<Combination>, d: Seq<Probability>)
    ensures
        extend(a + b, d) == extend(a, d) + extend(b, d),
    decreases b.len(),
{
    if b.len() == 0 {
        assert(a + b =~= a);
        assert(extend(a, d) + extend(b, d) =~= extend(a, d));
    } else {
        assert((a + b).drop_last() =~= a + b.drop_last());
        lemma_extend_concat(a, b.drop_last(), d);
        assert(extend(a, d) + extend(b, d) =~= extend(a, d) + extend(b.drop_last(), d) + extend_one(b.last(), d));
    }
}

fn copy_values(v: &Vec<i32>) -> (r: Vec<i32>)
    ensures
        r@ == v@,
{
    let mut out: Vec<i32> = Vec::new();
    let mut i: usize = 0;
    while i < v.len()
        invariant
            i <= v@.len(),
            out@ == v@.take(i as int),
        decreases v@.len() - i,
    {
        out.push(v[i]);
        i = i + 1;
        assert(out@ =~= v@.take(i as int));
    }
    assert(v@.take(v@.len() as int) =~= v@);
    out
}

/// Each combination followed by each outcome of `d`; `None` where a chance
/// does not fit.
fn extend_combinations(cs: &Vec<(Vec<i32>, Chance)>, d: &Die) -> (r: Option<Vec<(Vec<i32>, Chance)>>)
    requires
        forall|i: int| 0 <= i < cs@.len() ==> (#[trigger] cs@[i]).1.den > 0,
    ensures
        r matches Some(v) ==> forall|i: int| 0 <= i < v@.len() ==> (#[trigger] v@[i]).1.den > 0,
        r matches Some(v) ==> (cs@.len() > 0 ==> v@.len() > 0),
        r is Some <==> chances_fit(extend(combination_views(cs@), d@)),
        r matches Some(v) ==> combination_views(v@) == extend(combination_views(cs@), d@),
{
    let ps = d.get_probabilities();
    let ghost cv = combination_views(cs@);
    let ghost whole = extend(cv, d@);
    let mut out: Vec<(Vec<i32>, Chance)> = Vec::new();
    let mut i: usize = 0;
    assert(cv.take(0) =~= Seq::<Combination>::empty());
    while i < cs.len()
        invariant
            ps@ == d@,
            cv == combination_views(cs@),
            whole == extend(cv, d@),
            i <= cs@.len(),
            combination_views(out@) == extend(cv.take(i as int), d@),
            chances_fit(combination_views(out@)),
            is_distribution(d@),
            forall|k: int| 0 <= k < cs@.len() ==> (#[trigger] cs@[k]).1.den > 0,
            forall|k: int| 0 <= k < out@.len() ==> (#[trigger] out@[k]).1.den > 0,
            i > 0 ==> out@.len() > 0,
        decreases cs@.len() - i,
    {
        let ghost before = combination_views(out@);
        let ghost next = extend_one(cv[i as int], d@);
        let mut j: usize = 0;
        assert(next.take(0) =~= Seq::<Combination>::empty());
        assert(before + next.take(0) =~= before);
        while j < ps.len()
            invariant
                ps@ == d@,
                cv == combination_views(cs@),
                whole == extend(cv, d@),
                i < cs@.len(),
                next == extend_one(cv[i as int], d@),
                j <= ps@.len(),
                combination_views(out@) == before + next.take(j as int),
                chances_fit(combination_views(out@)),
                is_distribution(d@),
                forall|k: int| 0 <= k < cs@.len() ==> (#[trigger] cs@[k]).1.den > 0,
                forall|k: int| 0 <= k < out@.len() ==> (#[trigger] out@[k]).1.den > 0,
                i > 0 ==> out@.len() > 0,
                j > 0 ==> out@.len() > 0,
            decreases ps@.len() - j,
        {
            let p = ps[j];
            let c = &cs[i];
            match c.1.checked_mul(&p.chance) {
                Some(ch) => {
                    proof {
                        assert(p.chance.den == d@[0].chance.den);
                        assert(ch.den > 0) by (nonlinear_arith)
                            requires ch.den == c.1.den * p.chance.den, c.1.den > 0, p.chance.den > 0;
                    }
                    let mut vals = copy_values(&c.0);
                    vals.push(p.value);
                    let ghost old_out = out@;
                    out.push((vals, ch));
                    proof {
                        assert(combination_views(out@) =~= combination_views(old_out).push(next[j as int]));
                        assert(next.take(j + 1) =~= next.take(j as int).push(next[j as int]));
                    }
                    j = j + 1;
                },
                None => {
                    proof {
                        let front = extend(cv.take(i as int), d@);
                        let k = front.len() + j;
                        assert(cv.take(i + 1).drop_last() =~= cv.take(i as int));
                        assert(cv.take(i + 1).last() == cv[i as int]);
                        assert(extend(cv.take(i + 1), d@) == front + next);
                        assert(cv =~= cv.take(i + 1) + cv.skip(i + 1));
                        lemma_extend_concat(cv.take(i + 1), cv.skip(i + 1), d@);
                        assert(next.len() == d@.len());
                        assert(k < (front + next).len());
                        assert((front + next)[k] == next[j as int]);
                        let rest = extend(cv.skip(i + 1), d@);
                        assert(whole == (front + next) + rest);
                        assert(((front + next) + rest)[k] == (front + next)[k]);
                        assert(whole[k] == next[j as int]);
                        assert(cv[i as int] == (c.0@, c.1.num as int, c.1.den as int));
                        assert(next[j as int].1 > u64::MAX || next[j as int].2 > u64::MAX);
                        assert(!chances_fit(whole));
                    }
                    return None;
                },
            }
        }
        proof {
            assert(next.take(ps@.len() as int) =~= next);
            assert(cv.take(i + 1).drop_last() =~= cv.take(i as int));
            assert(cv.take(i + 1).last() == cv[i as int]);
        }
        i = i + 1;
    }
    assert(cv.take(cs@.len() as int) =~= cv);
    Some(out)
}

/// Every combination of one outcome from each distribution, with the
/// product of their chances; none for no distributions.
///
/// `None` exactly where the chance of a combination of the first few
/// distributions does not fit in 64 bits.
pub fn prep(probability_structs: &[Die]) -> (r: Option<Vec<(Vec<i32>, Chance)>>)
    ensures
        probability_structs@.len() == 0 ==> r is Some && r->0@.len() == 0,
        probability_structs@.len() > 0 ==> (r is Some <==> combos_fit(views(probability_structs@))),
        probability_structs@.len() > 0 ==> (r matches Some(v) ==> combination_views(v@) == combos(views(probability_structs@))),
        r matches Some(v) ==> forall|i: int| 0 <= i < v@.len() ==> (#[trigger] v@[i]).1.den > 0,
        r matches Some(v) ==> (probability_structs@.len() > 0 ==> v@.len() > 0),
{
    let n = probability_structs.len();
    if n == 0 {
        return Some(Vec::new());
    }
    let ghost ds = views(probability_structs@);
    let mut acc: Vec<(Vec<i32>, Chance)> = vec![(Vec::new(), Chance { num: 1, den: 1 })];
    proof {
        assert(ds.take(0) =~= Seq::<Seq<Probability>>::empty());
        assert(combination_views(acc@) =~= combos(ds.take(0)));
    }
    let mut k: usize = 0;
    while k < n
        invariant
            n == probability_structs@.len(),
            ds == views(probability_structs@),
            k <= n,
            combination_views(acc@) == combos(ds.take(k as int)),
            forall|m: int| 0 <= m <= k ==> chances_fit(#[trigger] combos(ds.take(m))),
            forall|i: int| 0 <= i < acc@.len() ==> (#[trigger] acc@[i]).1.den > 0,
            acc@.len() > 0,
        decreases n - k,
    {
        proof {
            assert(ds.take(k + 1).drop_last() =~= ds.take(k as int));
            assert(ds.take(k + 1).last() == probability_structs@[k as int]@);
        }
        match extend_combinations(&acc, &probability_structs[k]) {
            Some(next) => {
                acc = next;
            },
            None => {
                proof {
                    assert(!chances_fit(combos(ds.take(k + 1))));
                }
                return None;
            },
        }
        k = k + 1;
    }
    assert(ds.take(n as int) =~= ds);
    Some(acc)
}

/// The outcome of each combination: the sum of the values it keeps, with
/// the combination's chance.
pub open spec fn pool_raw(cs: Seq<Combination>, drop: int, drop_type: DropType) -> Seq<Probability> {
    cs.map_values(
        |c: Combination|
            Probability {
                value: seq_sum(kept(c.0, drop, drop_type)) as i32,
                chance: Chance { num: c.1 as u64, den: c.2 as u64 },
            },
    )
}

/// Every combination's kept sum fits in an `i32`.
pub open spec fn sums_fit(cs: Seq<Combination>, drop: int, drop_type: DropType) -> bool {
    forall|i: int| 0 <= i < cs.len() ==> i32::MIN <= #[trigger] seq_sum(kept(cs[i].0, drop, drop_type)) <= i32::MAX
}

/// `r` is the pool of the distributions `ds` with `drop` values dropped
/// from the `drop_type` end of each combination: the compression of the
/// kept sums, present exactly where every chance and sum fits.
pub open spec fn pool_outcome(ds: Seq<Seq<Probability>>, drop: int, drop_type: DropType, r: Option<Die>) -> bool {
    let cs = combos(ds);
    let raw = pool_raw(cs, drop, drop_type);
    &&& (r is Some <==> combos_fit(ds) && sums_fit(cs, drop, drop_type) && compress_fits(raw))
    &&& (r matches Some(d) ==> is_compression(d@, raw) && is_distribution(d@))
}

/// The sum of `v[lo..hi]`.
fn sum_range(v: &Vec<i32>, lo: usize, hi: usize) -> (r: i128)
    requires
        lo <= hi <= v@.len(),
    ensures
        r == seq_sum(v@.subrange(lo as int, hi as int)),
{
    let mut acc: i128 = 0;
    let mut j: usize = lo;
    assert(v@.subrange(lo as int, lo as int) =~= Seq::<i32>::empty());
    while j < hi
        invariant
            lo <= j <= hi <= v@.len(),
            acc == seq_sum(v@.subrange(lo as int, j as int)),
            -(j - lo) * 0x8000_0000 <= acc <= (j - lo) * 0x8000_0000,
        decreases hi - j,
    {
        proof {
            assert(v@.subrange(lo as int, j + 1).drop_last() =~= v@.subrange(lo as int, j as int));
            assert(j - lo < 0x1_0000_0000_0000_0000);
        }
        acc = acc + v[j] as i128;
        j = j + 1;
    }
    acc
}

/// The pool of the given independent distributions: for every combination
/// of one outcome from each, the values are sorted, `drop_amount` of them
/// are dropped from the `drop_condition` end, and the rest are summed; the
/// sums, with the chances of their combinations, are compressed. No
/// distributions give the neutral distribution.
///
/// `None` exactly where a chance or a sum does not fit its type.
pub fn drop_by_condition(probability_structs: &[Die], drop_condition: DropType, drop_amount: usize) -> (r: Option<Die>)
    ensures
        probability_structs@.len() == 0 ==> r is Some && r->0@ == neutral(),
        probability_structs@.len() > 0 ==> pool_outcome(views(probability_structs@), drop_amount as int, drop_condition, r),
{
    let ghost ds = views(probability_structs@);
    let cs = match prep(probability_structs) {
        Some(c) => c,
        None => {
            return None;
        },
    };
    if probability_structs.len() == 0 {
        return Die::from_probabilities(Vec::new());
    }
    let ghost cv = combination_views(cs@);
    let ghost whole = pool_raw(cv, drop_amount as int, drop_condition);
    let mut raw: Vec<Probability> = Vec::new();
    let mut i: usize = 0;
    while i < cs.len()
        invariant
            cv == combination_views(cs@),
            cv == combos(ds),
            ds == views(probability_structs@),
            probability_structs@.len() > 0,
            combos_fit(ds),
            cs@.len() > 0,
            whole == pool_raw(cv, drop_amount as int, drop_condition),
            forall|k: int| 0 <= k < cs@.len() ==> (#[trigger] cs@[k]).1.den > 0,
            i <= cs@.len(),
            raw@ == whole.take(i as int),
            valid_chances(raw@),
            forall|k: int| 0 <= k < i ==> i32::MIN <= #[trigger] seq_sum(kept(cv[k].0, drop_amount as int, drop_condition)) <= i32::MAX,
        decreases cs@.len() - i,
    {
        let c = &cs[i];
        let sorted = sort_values(&c.0);
        let k = sorted.len();
        proof {
            lemma_sort_len(c.0@);
            assert(cv[i as int].0 == c.0@);
        }
        let (lo, hi) = if drop_amount >= k {
            (0, 0)
        } else {
            match drop_condition {
                DropType::High => (0, k - drop_amount),
                DropType::Low => (drop_amount, k),
            }
        };
        let total = sum_range(&sorted, lo, hi);
        proof {
            let kv = kept(c.0@, drop_amount as int, drop_condition);
            if drop_amount >= k {
                assert(sorted@.subrange(0, 0) =~= kv);
            } else {
                match drop_condition {
                    DropType::High => {
                        assert(sorted@.subrange(lo as int, hi as int) =~= kv);
                    },
                    DropType::Low => {
                        assert(sorted@.subrange(lo as int, hi as int) =~= kv);
                    },
                }
            }
        }
        if total < i32::MIN as i128 || total > i32::MAX as i128 {
            proof {
                assert(!sums_fit(cv, drop_amount as int, drop_condition));
            }
            return None;
        }
        let p = Probability { value: total as i32, chance: c.1 };
        proof {
            assert(whole[i as int] == p);
            assert(whole.take(i + 1) =~= whole.take(i as int).push(p));
        }
        raw.push(p);
        i = i + 1;
    }
    assert(whole.take(cs@.len() as int) =~= whole);
    Die::from_probabilities(raw)
}

/// The pool of `times` copies of `die`.
fn pool_of(die: &Die, times: usize, drop_amount: usize, drop_condition: DropType) -> (r: Option<Die>)
    ensures
        times == 0 ==> r is Some && r->0@ == neutral(),
        times > 0 ==> pool_outcome(repeat(die@, times as nat), drop_amount as int, drop_condition, r),
{
    let mut dice: Vec<Die> = Vec::new();
    let mut i: usize = 0;
    assert(views(dice@) =~= repeat(die@, 0));
    while i < times
        invariant
            i <= times,
            views(dice@) == repeat(die@, i as nat),
        decreases times - i,
    {
        let ghost before = dice@;
        let c = die.clone();
        dice.push(c);
        proof {
            assert(dice@ == before.push(c));
            assert forall|k: int| 0 <= k < dice@.len() implies #[trigger] views(dice@)[k] == die@ by {
                if k < before.len() {
                    assert(views(before) == repeat(die@, i as nat));
                    assert(repeat(die@, i as nat).len() == i);
                    assert(0 <= k < i);
                    assert(repeat(die@, i as nat)[k] == die@);
                    assert(views(dice@)[k] == before[k]@);
                }
            }
        }
        i = i + 1;
        assert(views(before).len() == before.len());
        assert(views(dice@).len() == i);
        assert forall|k: int| 0 <= k < i implies #[trigger] repeat(die@, i as nat)[k] == views(dice@)[k] by {
            assert(repeat(die@, i as nat).len() == i);
        }
        assert(views(dice@) =~= repeat(die@, i as nat));
    }
    drop_by_condition(dice.as_slice(), drop_condition, drop_amount)
}

impl Die {
    /// The pool of `times` dice of `amount` sides (see [`Die::new`]), with
    /// `drop_amount` values dropped from the `drop_condition` end.
    pub fn new_drop(amount: i32, times: usize, drop_amount: usize, drop_condition: DropType) -> (r: Option<Die>)
        ensures
            times == 0 ==> r is Some && r->0@ == neutral(),
            times > 0 ==> pool_outcome(repeat(sided(amount as int), times as nat), drop_amount as int, drop_condition, r),
    {
        pool_of(&Die::new(amount), times, drop_amount, drop_condition)
    }

    /// The pool of `times` copies of the range `start..=end` (see
    /// [`Die::from_range`]), with `drop_amount` values dropped from the
    /// `drop_condition` end.
    pub fn drop_from_range(start: i32, end: i32, times: usize, drop_amount: usize, drop_condition: DropType) -> (r: Option<Die>)
        ensures
            times == 0 ==> r is Some && r->0@ == neutral(),
            times > 0 ==> pool_outcome(repeat(range_of(start as int, end as int), times as nat), drop_amount as int, drop_condition, r),
    {
        pool_of(&Die::from_range(start, end), times, drop_amount, drop_condition)
    }

    /// The pool of `times` copies of the values with equal chances (see
    /// [`Die::from_values`]), with `drop_amount` values dropped from the
    /// `drop_condition` end.
    pub fn drop_from_values(values: &[i32], times: usize, drop_amount: usize, drop_condition: DropType) -> (r: Option<Die>)
        ensures
            exists|x: Seq<Probability>| {
                &&& built(crate::die::uniform(values@), x)
                &&& times == 0 ==> r is Some && r->0@ == neutral()
                &&& times > 0 ==> pool_outcome(repeat(x, times as nat), drop_amount as int, drop_condition, r)
            },
    {
        let die = Die::from_values(values);
        let r = pool_of(&die, times, drop_amount, drop_condition);
        assert(built(crate::die::uniform(values@), die@));
        r
    }

    /// The pool of `times` copies of the distribution of the outcomes (see
    /// [`Die::from_probabilities`]), with `drop_amount` values dropped from
    /// the `drop_condition` end; `None` where that distribution does not fit.
    pub fn drop_from_probabilities(
        probabilities: Vec<Probability>,
        times: usize,
        drop_amount: usize,
        drop_condition: DropType,
    ) -> (r: Option<Die>)
        requires
            valid_chances(probabilities@),
        ensures
            !built_fits(probabilities@) ==> r is None,
            built_fits(probabilities@) ==> exists|x: Seq<Probability>| {
                &&& built(probabilities@, x)
                &&& times == 0 ==> r is Some && r->0@ == neutral()
                &&& times > 0 ==> pool_outcome(repeat(x, times as nat), drop_amount as int, drop_condition, r)
            },
    {
        let ghost p = probabilities@;
        match Die::from_probabilities(probabilities) {
            Some(die) => {
                let r = pool_of(&die, times, drop_amount, drop_condition);
                assert(built(p, die@));
                r
            },
            None => None,
        }
    }
}

} // verus!
