use dice_expr::ast::EvalError;
use dice_expr::dice::{roll, roll_from};

#[test]
fn fixed_draw_of_zero_yields_zero() {
    for n in [1u32, 2, 6, 20, 100] {
        assert_eq!(roll_from(n, 0), Ok(0));
    }
}

#[test]
fn fixed_maximal_draw_yields_the_maximum() {
    for n in [1u32, 2, 6, 20, 100] {
        assert_eq!(roll_from(n, n - 1), Ok(n - 1));
    }
}

#[test]
fn out_of_range_draw_is_folded_into_range() {
    assert_eq!(roll_from(5, 7), Ok(2));
    assert_eq!(roll_from(1, 1000), Ok(0));
}

#[test]
fn empty_range_is_an_evaluation_error() {
    assert_eq!(roll_from(0, 3), Err(EvalError::EmptyDiceRange));
    assert_eq!(roll(0), Err(EvalError::EmptyDiceRange));
}

#[test]
fn random_roll_stays_in_range() {
    for n in [1u32, 2, 6, 20] {
        for _ in 0..50 {
            let v = roll(n).unwrap();
            assert!(v < n);
        }
    }
}

#[test]
fn one_sided_die_always_rolls_zero() {
    for _ in 0..10 {
        assert_eq!(roll(1), Ok(0));
    }
}
