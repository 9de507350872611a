use die_stats::{Chance, Probability};

#[test]
fn probability_adding() {
    let sum = Probability { value: 1, chance: Chance { num: 1, den: 5 } }
        .combine(&Probability { value: 2, chance: Chance { num: 1, den: 20 } })
        .unwrap();
    assert_eq!(sum, Probability { value: 3, chance: Chance { num: 1, den: 100 } });
    assert_eq!(sum.chance, Chance { num: 1, den: 100 });
}

#[test]
fn multiplying() {
    let scaled = Probability { value: 1, chance: Chance { num: 1, den: 5 } }
        .scale(&Chance { num: 1, den: 20 })
        .unwrap();
    assert_eq!(scaled, Probability { value: 1, chance: Chance { num: 1, den: 100 } });
    assert_eq!(scaled.chance, Chance { num: 1, den: 100 });
}

#[test]
fn outcomes_are_equal_by_value() {
    let a = Probability { value: 4, chance: Chance { num: 1, den: 2 } };
    let b = Probability { value: 4, chance: Chance { num: 1, den: 3 } };
    assert_eq!(a, b);
    assert_ne!(a.chance, b.chance);
    assert_eq!(Chance { num: 2, den: 4 }, Chance { num: 1, den: 2 });
}

#[test]
fn overflowing_products() {
    let big = Probability { value: i32::MAX, chance: Chance { num: 1, den: u64::MAX } };
    let one = Probability { value: 1, chance: Chance { num: 1, den: 1 } };
    assert!(big.combine(&one).is_none());
    assert!(one.scale(&Chance { num: 1, den: 2 }).is_some());
    assert!(big.scale(&Chance { num: 1, den: 2 }).is_none());
}
