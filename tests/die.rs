use die_stats::{Chance, Die, Probability};

fn p(value: i32, num: u64, den: u64) -> Probability {
    Probability { value, chance: Chance { num, den } }
}

fn as_f64(num: i128, den: i128) -> f64 {
    num as f64 / den as f64
}

#[test]
fn initializers() {
    let expected_probabilities = vec![p(1, 1, 2), p(2, 1, 2)];
    let expected_die = Die::from_probabilities(expected_probabilities.clone()).unwrap();
    assert_eq!(expected_die.get_probabilities(), &expected_probabilities);
    assert_eq!(Die::new(2), expected_die);
    assert_eq!(Die::from_values(&vec![1, 2]), expected_die);
    assert_eq!(Die::from_range(1, 2), expected_die);
    assert_eq!(Die::empty(), Die::from_probabilities(vec![p(0, 1, 1)]).unwrap())
}

#[test]
fn mean_calculation() {
    let mean = Die::new(6).get_mean();
    assert_eq!(as_f64(mean.num, mean.den), 3.5)
}

#[test]
fn variance_calculation() {
    let variance = Die::new(6).get_variance().unwrap();
    assert!((as_f64(variance.num, variance.den) - 2.916666666666666).abs() < 1e-12);
    assert_eq!(variance.num * 12, 35 * variance.den);
}

#[test]
fn standard_deviation_calculation() {
    let variance = Die::new(6).get_variance().unwrap();
    let deviation = as_f64(variance.num, variance.den).sqrt();
    assert!((deviation - 1.707825127659933).abs() < 1e-12)
}

#[test]
fn min() {
    let sum = Die::new(2).add_independent(&Die::from_values(&vec![3, 4, 5])).unwrap();
    assert_eq!(sum.get_min(), 4)
}

#[test]
fn max() {
    let sum = Die::new(2).add_independent(&Die::from_values(&vec![3, 4, 5])).unwrap();
    assert_eq!(sum.get_max(), 7)
}

#[test]
fn die_adding() {
    let sum = Die::new(2).add_independent(&Die::new(2)).unwrap();
    assert_eq!(*sum.get_probabilities(), vec![p(2, 1, 4), p(3, 2, 4), p(4, 1, 4)]);
    assert_eq!(sum, Die::from_probabilities(vec![p(2, 1, 4), p(3, 1, 2), p(4, 1, 4)]).unwrap());
}

#[test]
fn adding_dependent() {
    let result = Die::new(2)
        .add_dependent(&|&prob: &i32| if prob == 2 { Die::new(2) } else { Die::new(0) })
        .unwrap();
    assert_eq!(
        result,
        Die::from_probabilities(vec![p(1, 1, 2), p(3, 1, 4), p(4, 1, 4)]).unwrap()
    );
}

#[test]
fn chaining_dice() {
    let result = Die::new(2)
        .conditional_chain(&|&prob: &i32| if prob == 1 { Die::new(2) } else { Die::new(3) })
        .unwrap();
    assert_eq!(
        result,
        Die::from_probabilities(vec![p(1, 5, 12), p(2, 5, 12), p(3, 1, 6)]).unwrap()
    );
    let chances: Vec<f64> = result
        .get_probabilities()
        .iter()
        .map(|e| e.chance.num as f64 / e.chance.den as f64)
        .collect();
    assert!((chances[0] - 0.41666666666666663).abs() < 1e-12);
    assert!((chances[1] - 0.41666666666666663).abs() < 1e-12);
    assert!((chances[2] - 0.16666666666666666).abs() < 1e-12);
}

#[test]
fn adding_flat() {
    let result = Die::new(2).add_flat(1);
    assert_eq!(result, Die::from_probabilities(vec![p(2, 1, 2), p(3, 1, 2)]).unwrap())
}

#[test]
fn shift_keeps_chances() {
    let base = Die::from_probabilities(vec![p(-3, 1, 10), p(0, 2, 10), p(5, 7, 10)]).unwrap();
    let moved = base.add_flat(4);
    let before = base.get_probabilities();
    let after = moved.get_probabilities();
    assert_eq!(before.len(), after.len());
    for i in 0..before.len() {
        assert_eq!(after[i].value, before[i].value + 4);
        assert_eq!(after[i].chance.num, before[i].chance.num);
        assert_eq!(after[i].chance.den, before[i].chance.den);
    }
}

#[test]
fn two_six_sided_dice() {
    let sum = Die::new(6).add_independent(&Die::new(6)).unwrap();
    let mean = sum.get_mean();
    assert_eq!(as_f64(mean.num, mean.den), 7.0);
    assert_eq!(sum.get_min(), 2);
    assert_eq!(sum.get_max(), 12);
    let seven = sum.get_probabilities().iter().find(|e| e.value == 7).unwrap();
    assert_eq!(seven.chance, Chance { num: 6, den: 36 });
    assert_eq!(seven.chance.num * 36, 6 * seven.chance.den);
}

#[test]
fn uniform_moments() {
    for n in 1..=20i32 {
        let die = Die::new(n);
        let mean = die.get_mean();
        assert_eq!(mean.num * 2, (n as i128 + 1) * mean.den);
        let variance = die.get_variance().unwrap();
        let n = n as i128;
        assert_eq!(variance.num * 12, (n * n - 1) * variance.den);
    }
}

#[test]
fn empty_input_gives_neutral() {
    let neutral = Die::from_probabilities(Vec::new()).unwrap();
    assert_eq!(*neutral.get_probabilities(), vec![p(0, 1, 1)]);
    assert_eq!(neutral.get_probabilities()[0].chance.num, 1);
    assert_eq!(Die::from_values(&[]), neutral);
    assert_eq!(Die::new(0), neutral);
}

#[test]
fn reversed_range_is_swapped() {
    assert_eq!(Die::from_range(5, 2), Die::from_range(2, 5));
    assert_eq!(Die::new(-3), Die::from_values(&[-3, -2, -1]));
}

#[test]
fn equal_values_are_merged() {
    let weighted = Die::from_probabilities(vec![p(1, 1, 10), p(2, 1, 10), p(3, 1, 10), p(4, 7, 10)]).unwrap();
    assert_eq!(weighted, Die::from_values(&vec![1, 2, 3, 4, 4, 4, 4, 4, 4, 4]));
    let merged = Die::from_probabilities(vec![p(3, 1, 4), p(1, 1, 2), p(3, 1, 4)]).unwrap();
    assert_eq!(merged.get_probabilities().len(), 2);
    assert_eq!(merged.get_probabilities()[0].value, 1);
    assert_eq!(merged.get_probabilities()[1].value, 3);
    assert_eq!(merged.get_probabilities()[1].chance, Chance { num: 1, den: 2 });
}

#[test]
fn chances_are_not_rescaled() {
    let die = Die::from_probabilities(vec![p(1, 1, 4), p(2, 1, 4)]).unwrap();
    let entries = die.get_probabilities();
    assert_eq!((entries[0].chance.num, entries[0].chance.den), (1, 4));
    assert_eq!((entries[1].chance.num, entries[1].chance.den), (1, 4));
}

#[test]
fn chances_that_do_not_fit() {
    let big = u64::MAX / 2;
    assert!(Die::from_probabilities(vec![p(1, 1, big), p(2, 1, big - 1)]).is_none());
    let wide = Die::from_probabilities(vec![p(1, 1, 1 << 40)]).unwrap();
    assert!(wide.add_independent(&wide).is_none());
    assert!(wide.get_variance().is_some());
    let heavy = Die::from_probabilities(vec![p(i32::MAX, u64::MAX, 1 << 40)]).unwrap();
    assert!(heavy.get_variance().is_none());
}

#[test]
fn sums_that_do_not_fit() {
    let high = Die::from_values(&[i32::MAX]);
    assert!(high.add_independent(&Die::new(1)).is_none());
    assert!(high.add_dependent(&|_: &i32| Die::new(1)).is_none());
    assert!(high.conditional_chain(&|_: &i32| Die::new(1)).is_some());
}

#[test]
fn conditional_keeps_follow_up_values() {
    let hit_or_miss = Die::new(20)
        .conditional_chain(&|&v: &i32| if v >= 16 { Die::new(1) } else { Die::empty() })
        .unwrap();
    assert_eq!(hit_or_miss, Die::from_probabilities(vec![p(0, 3, 4), p(1, 1, 4)]).unwrap());
}

#[test]
fn independent_sum_is_commutative_and_associative() {
    let a = Die::from_values(&[1, 1, 4]);
    let b = Die::new(3);
    let c = Die::from_probabilities(vec![p(-2, 1, 5), p(7, 4, 5)]).unwrap();
    assert_eq!(a.add_independent(&b).unwrap(), b.add_independent(&a).unwrap());
    let left = a.add_independent(&b).unwrap().add_independent(&c).unwrap();
    let right = a.add_independent(&b.add_independent(&c).unwrap()).unwrap();
    assert_eq!(left, right);
}

#[test]
fn compression_round_trip() {
    let die = Die::new(2).add_independent(&Die::new(3)).unwrap();
    let again = Die::from_probabilities(die.get_probabilities().clone()).unwrap();
    assert_eq!(again, die);
    let first = die_stats::compress_additive(&[p(2, 1, 3), p(1, 1, 6), p(2, 1, 2)]).unwrap();
    let second = die_stats::compress_additive(&first).unwrap();
    assert_eq!(first.len(), 2);
    for i in 0..first.len() {
        assert_eq!(first[i].value, second[i].value);
        assert_eq!(first[i].chance.num, second[i].chance.num);
        assert_eq!(first[i].chance.den, second[i].chance.den);
    }
    assert_eq!((first[1].chance.num, first[1].chance.den), (5, 6));
}

#[test]
fn uniform_chances() {
    let entries = die_stats::values_to_probabilities(&[4, 9, 4]);
    assert_eq!(entries.len(), 3);
    for e in &entries {
        assert_eq!((e.chance.num, e.chance.den), (1, 3));
    }
    assert_eq!(entries[1].value, 9);
}

#[test]
fn statistics_of_a_list() {
    let entries = vec![p(1, 1, 2), p(3, 1, 3), p(3, 1, 6)];
    let mean = die_stats::calc_mean(&entries).unwrap();
    assert_eq!((mean.num, mean.den), (12, 6));
    let variance = die_stats::calc_variance(&entries).unwrap();
    assert_eq!((variance.num, variance.den), (36, 36));
    let none = die_stats::calc_mean(&[]).unwrap();
    assert_eq!((none.num, none.den), (0, 1));
    let negative = die_stats::calc_mean(&[p(-4, 1, 4), p(-2, 3, 4)]).unwrap();
    assert_eq!(negative.num * 2, -5 * negative.den);
}

#[test]
fn neutral_follow_up_changes_nothing() {
    let base = Die::from_probabilities(vec![p(1, 1, 6), p(4, 2, 6), p(9, 3, 6)]).unwrap();
    let same = base.add_dependent(&|_: &i32| Die::empty()).unwrap();
    assert_eq!(same, base);
    let same_entries = same.get_probabilities();
    assert_eq!((same_entries[2].chance.num, same_entries[2].chance.den), (3, 6));
}
