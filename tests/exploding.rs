use die_stats::{exploding_helper, Chance, Die, ExplodingCondition, Probability};

fn p(value: i32, num: u64, den: u64) -> Probability {
    Probability { value, chance: Chance { num, den } }
}

fn check_conditions() {
    let expected_die = Die::new(3);
    let lower_fn = |v: i32| exploding_helper(0, ExplodingCondition::Lower, &expected_die, v);
    assert_eq!(lower_fn(-1), expected_die.clone());
    assert_ne!(lower_fn(0), expected_die.clone());
    assert_ne!(lower_fn(1), expected_die.clone());
    let lower_eq_fn = |v: i32| exploding_helper(0, ExplodingCondition::LowerOrEqual, &expected_die, v);
    assert_eq!(lower_eq_fn(-1), expected_die.clone());
    assert_eq!(lower_eq_fn(0), expected_die.clone());
    assert_ne!(lower_eq_fn(1), expected_die.clone());
    let eq_fn = |v: i32| exploding_helper(0, ExplodingCondition::Equal, &expected_die, v);
    assert_ne!(eq_fn(-1), expected_die.clone());
    assert_eq!(eq_fn(0), expected_die.clone());
    assert_ne!(eq_fn(1), expected_die.clone());
    let greater_eq_fn = |v: i32| exploding_helper(0, ExplodingCondition::GreaterOrEqual, &expected_die, v);
    assert_ne!(greater_eq_fn(-1), expected_die.clone());
    assert_eq!(greater_eq_fn(0), expected_die.clone());
    assert_eq!(greater_eq_fn(1), expected_die.clone());
    let greater_fn = |v: i32| exploding_helper(0, ExplodingCondition::Greater, &expected_die, v);
    assert_ne!(greater_fn(-1), expected_die.clone());
    assert_ne!(greater_fn(0), expected_die.clone());
    assert_eq!(greater_fn(1), expected_die.clone());
}

fn check_initializers() {
    let expected_probabilities = Die::from_probabilities(vec![p(2, 3, 4), p(3, 1, 4)]).unwrap();
    assert_eq!(
        Die::new_exploding(2, 1, ExplodingCondition::LowerOrEqual, Die::new(2)).unwrap(),
        expected_probabilities
    );
    assert_eq!(
        Die::exploding_from_values(&vec![1, 2], 1, ExplodingCondition::LowerOrEqual, Die::new(2)).unwrap(),
        expected_probabilities
    );
    assert_eq!(
        Die::exploding_from_probabilities(
            vec![p(1, 1, 2), p(2, 1, 2)],
            1,
            ExplodingCondition::LowerOrEqual,
            Die::new(2)
        )
        .unwrap(),
        expected_probabilities
    );
    assert_eq!(
        Die::exploding_from_range(1, 2, 1, ExplodingCondition::LowerOrEqual, Die::new(2)).unwrap(),
        expected_probabilities
    );
}

#[test]
fn exploding_constructor_exploding_condition_equality() {
    check_conditions();
}

#[test]
fn exploding_constructor_exploding_initializer() {
    check_initializers();
}

#[test]
fn exploding_initializer_exploding_condition_equality() {
    check_conditions();
}

#[test]
fn exploding_initializer_exploding_initializer() {
    check_initializers();
}

#[test]
fn explosion_is_one_level_only() {
    let once = Die::new_exploding(4, 4, ExplodingCondition::Equal, Die::new(4)).unwrap();
    assert_eq!(
        once,
        Die::from_probabilities(vec![
            p(1, 4, 16),
            p(2, 4, 16),
            p(3, 4, 16),
            p(5, 1, 16),
            p(6, 1, 16),
            p(7, 1, 16),
            p(8, 1, 16),
        ])
        .unwrap()
    );
}

#[test]
fn condition_checks() {
    assert!(ExplodingCondition::Lower.holds(1, 2));
    assert!(!ExplodingCondition::Lower.holds(2, 2));
    assert!(ExplodingCondition::GreaterOrEqual.holds(2, 2));
    assert!(!ExplodingCondition::Greater.holds(2, 2));
    assert!(ExplodingCondition::Equal.holds(-5, -5));
}
