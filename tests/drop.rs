use die_stats::{drop_by_condition, prep, Chance, Die, DropType, Probability};

fn p(value: i32, num: u64, den: u64) -> Probability {
    Probability { value, chance: Chance { num, den } }
}

fn combination(values: Vec<i32>, num: u64, den: u64) -> (Vec<i32>, Chance) {
    (values, Chance { num, den })
}

fn assert_combinations(actual: Vec<(Vec<i32>, Chance)>, expected: Vec<(Vec<i32>, Chance)>) {
    assert_eq!(actual.len(), expected.len());
    for (a, e) in actual.iter().zip(expected.iter()) {
        assert_eq!(a.0, e.0);
        assert_eq!(a.1, e.1);
    }
}

#[test]
fn prep_dice_same() {
    let input = vec![Die::new(2), Die::new(2), Die::new(2)];
    let fn_result = prep(&input).unwrap();
    assert_combinations(
        fn_result,
        vec![
            combination(vec![1, 1, 1], 1, 8),
            combination(vec![1, 1, 2], 1, 8),
            combination(vec![1, 2, 1], 1, 8),
            combination(vec![1, 2, 2], 1, 8),
            combination(vec![2, 1, 1], 1, 8),
            combination(vec![2, 1, 2], 1, 8),
            combination(vec![2, 2, 1], 1, 8),
            combination(vec![2, 2, 2], 1, 8),
        ],
    )
}

#[test]
fn prep_dice_difference() {
    let input = vec![Die::new(2), Die::new(3), Die::new(1)];
    let fn_result = prep(&input).unwrap();
    assert_combinations(
        fn_result,
        vec![
            combination(vec![1, 1, 1], 1, 6),
            combination(vec![1, 2, 1], 1, 6),
            combination(vec![1, 3, 1], 1, 6),
            combination(vec![2, 1, 1], 1, 6),
            combination(vec![2, 2, 1], 1, 6),
            combination(vec![2, 3, 1], 1, 6),
        ],
    )
}

#[test]
fn prep_without_dice() {
    assert!(prep(&[]).unwrap().is_empty());
}

#[test]
fn drop_by_condition_low() {
    let result = drop_by_condition(&vec![Die::new(2), Die::new(2), Die::new(2)], DropType::Low, 1).unwrap();
    assert_eq!(result, Die::from_probabilities(vec![p(2, 1, 8), p(3, 3, 8), p(4, 4, 8)]).unwrap());
}

#[test]
fn drop_by_condition_high() {
    let result = drop_by_condition(&vec![Die::new(2), Die::new(2), Die::new(2)], DropType::Low, 1).unwrap();
    assert_eq!(
        result.get_probabilities(),
        &vec![p(2, 1, 8), p(3, 3, 8), p(4, 4, 8)]
    );
    let chances: Vec<f64> =
        result.get_probabilities().iter().map(|e| e.chance.num as f64 / e.chance.den as f64).collect();
    assert_eq!(chances, vec![0.125, 0.375, 0.5]);
}

#[test]
fn dropping_the_highest() {
    let result = drop_by_condition(&vec![Die::new(2), Die::new(2), Die::new(2)], DropType::High, 1).unwrap();
    assert_eq!(result, Die::from_probabilities(vec![p(2, 4, 8), p(3, 3, 8), p(4, 1, 8)]).unwrap());
}

#[test]
fn dropping_everything() {
    let result = drop_by_condition(&vec![Die::new(6), Die::new(6)], DropType::High, 5).unwrap();
    assert_eq!(result, Die::empty());
    assert_eq!(drop_by_condition(&[], DropType::Low, 1).unwrap(), Die::empty());
}

#[test]
fn dropping_nothing_is_the_plain_sum() {
    let pool = drop_by_condition(&vec![Die::new(4), Die::new(6)], DropType::Low, 0).unwrap();
    assert_eq!(pool, Die::new(4).add_independent(&Die::new(6)).unwrap());
}

#[test]
fn drop_initializers() {
    let expected_output = Die::from_probabilities(vec![
        p(2, 1, 81),
        p(3, 4, 81),
        p(4, 15, 81),
        p(5, 28, 81),
        p(6, 33, 81),
    ])
    .unwrap();
    assert_eq!(Die::new_drop(3, 4, 2, DropType::Low).unwrap(), expected_output);
    assert_eq!(Die::drop_from_range(1, 3, 4, 2, DropType::Low).unwrap(), expected_output);
    assert_eq!(Die::drop_from_values(&vec![1, 2, 3], 4, 2, DropType::Low).unwrap(), expected_output);
    assert_eq!(
        Die::drop_from_probabilities(vec![p(1, 1, 3), p(2, 1, 3), p(3, 1, 3)], 4, 2, DropType::Low).unwrap(),
        expected_output
    );
    let chances: Vec<f64> =
        expected_output.get_probabilities().iter().map(|e| e.chance.num as f64 / e.chance.den as f64).collect();
    assert!((chances[0] - 0.012345679012345678).abs() < 1e-12);
    assert!((chances[4] - 0.4074074074074074).abs() < 1e-12);
}

#[test]
fn drop_chances_that_do_not_fit() {
    let wide = Die::from_probabilities(vec![p(1, 1, 1 << 40), p(2, (1 << 40) - 1, 1 << 40)]).unwrap();
    assert!(drop_by_condition(&vec![wide.clone(), wide], DropType::Low, 1).is_none());
}
