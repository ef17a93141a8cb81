use roll::eval::{eval_expr, EvalError, EvalResult};
use roll::parser::{DiceModifier, DiceModifierType, Expr};

fn num(n: i32) -> Expr {
    Expr::Number(n)
}

fn dice(count: i32, sides: i32, modifiers: Vec<DiceModifier>) -> Expr {
    Expr::Dice { count: Box::new(num(count)), sides: Box::new(num(sides)), modifiers }
}

fn rep(count: i32, expr: Expr, modifiers: Vec<DiceModifier>) -> Expr {
    Expr::Repetition { count: Box::new(num(count)), expr: Box::new(expr), modifiers }
}

fn binop(lhs: Expr, op: char, rhs: Expr) -> Expr {
    Expr::BinaryOp(Box::new(lhs), op, Box::new(rhs))
}

fn modifier(kind: DiceModifierType, val: Option<i32>) -> DiceModifier {
    DiceModifier { kind, value: val.map(|v| Box::new(num(v))) }
}

#[test]
fn eval_number() {
    let expr = num(42);
    assert_eq!(eval_expr(&expr).unwrap().to_number(), 42);
}

#[test]
fn eval_addition() {
    let expr = binop(num(2), '+', num(3));
    assert_eq!(eval_expr(&expr).unwrap().to_number(), 5);
}

#[test]
fn eval_multiplication_precedence() {
    let expr = binop(num(2), '+', binop(num(3), '*', num(4)));
    assert_eq!(eval_expr(&expr).unwrap().to_number(), 14);
}

#[test]
fn eval_simple_dice_roll() {
    let expr = dice(2, 6, vec![]);
    match eval_expr(&expr).unwrap() {
        EvalResult::Rolls(rolls) => {
            assert_eq!(rolls.len(), 2);
            assert!(rolls.iter().all(|&r| (1..=6).contains(&r)));
        }
        _ => panic!("Expected dice rolls"),
    }
}

#[test]
fn eval_repetition_roll() {
    let inner_dice = dice(1, 6, vec![]);
    let expr = rep(3, inner_dice, vec![]);
    match eval_expr(&expr).unwrap() {
        EvalResult::Rolls(rolls) => {
            assert_eq!(rolls.len(), 3);
            assert!(rolls.iter().all(|&r| (1..=6).contains(&r)));
        }
        _ => panic!("Expected repetition result"),
    }
}

#[test]
fn keep_high_modifier_works() {
    let expr = Expr::Dice {
        count: Box::new(num(5)),
        sides: Box::new(num(6)),
        modifiers: vec![modifier(DiceModifierType::KeepHigh, Some(3))],
    };

    let EvalResult::Rolls(rolls) = eval_expr(&expr).unwrap() else {
        panic!("Expected rolls");
    };

    assert!(rolls.len() <= 3);
}

#[test]
fn drop_low_modifier_works() {
    let expr = Expr::Dice {
        count: Box::new(num(4)),
        sides: Box::new(num(6)),
        modifiers: vec![modifier(DiceModifierType::DropLow, Some(2))],
    };

    let EvalResult::Rolls(rolls) = eval_expr(&expr).unwrap() else {
        panic!("Expected rolls");
    };

    assert!(rolls.len() <= 2);
}

#[test]
fn explode_modifier_works() {
    let expr = Expr::Dice {
        count: Box::new(num(2)),
        sides: Box::new(num(3)),
        modifiers: vec![modifier(DiceModifierType::Explode, None)],
    };

    let EvalResult::Rolls(rolls) = eval_expr(&expr).unwrap() else {
        panic!("Expected rolls");
    };

    assert!(rolls.len() >= 2);
    assert!(rolls.iter().all(|&r| (1..=3).contains(&r)));
}

#[test]
fn division_by_zero_is_an_error() {
    let expr = binop(num(4), '/', num(0));
    assert_eq!(eval_expr(&expr), Err(EvalError::DivisionByZero));
}

#[test]
fn eval_errors_describe_themselves() {
    assert_eq!(EvalError::DivisionByZero.message(), "division by zero");
    assert_eq!(EvalError::MissingSides.message(), "explode requires a number of sides");
}

#[test]
fn unsupported_operator_is_an_error() {
    let expr = binop(num(4), '%', num(2));
    assert_eq!(eval_expr(&expr), Err(EvalError::UnsupportedOp('%')));
}

#[test]
fn negative_dice_count_is_an_error() {
    let expr = dice(-1, 6, vec![]);
    assert_eq!(eval_expr(&expr), Err(EvalError::NegativeCount));
}

#[test]
fn zero_sides_is_an_error() {
    let expr = dice(2, 0, vec![]);
    assert_eq!(eval_expr(&expr), Err(EvalError::NonPositiveSides));
}

#[test]
fn keep_without_value_is_an_error() {
    let expr = dice(4, 6, vec![modifier(DiceModifierType::KeepHigh, None)]);
    assert_eq!(eval_expr(&expr), Err(EvalError::MissingModifierValue));
}

#[test]
fn explode_on_repetition_is_an_error() {
    let inner = dice(1, 6, vec![]);
    let expr = rep(3, inner, vec![modifier(DiceModifierType::Explode, None)]);
    assert_eq!(eval_expr(&expr), Err(EvalError::MissingSides));
}

#[test]
fn explode_threshold_of_one_is_an_error() {
    let expr = dice(2, 1, vec![modifier(DiceModifierType::Explode, None)]);
    assert_eq!(eval_expr(&expr), Err(EvalError::LowExplodeThreshold));
}

#[test]
fn exploded_rolls_never_end_at_threshold() {
    let expr = dice(3, 3, vec![modifier(DiceModifierType::Explode, None)]);
    let EvalResult::Rolls(rolls) = eval_expr(&expr).unwrap() else {
        panic!("Expected rolls");
    };
    assert!(rolls.len() >= 3);
    assert!(rolls.iter().all(|&r| (1..=3).contains(&r)));
    assert!(*rolls.last().unwrap() < 3);
    for (i, &r) in rolls.iter().enumerate() {
        if r >= 3 {
            assert!(i < rolls.len() - 1);
        }
    }
}

#[test]
fn dice_plus_number_sums_rolls_and_offset() {
    let expr = binop(dice(2, 6, vec![]), '+', num(3));
    let total = eval_expr(&expr).unwrap().to_number();
    assert!((5..=15).contains(&total));
}

#[test]
fn dice_rolls_stay_in_range() {
    let expr = dice(10, 4, vec![]);
    let EvalResult::Rolls(rolls) = eval_expr(&expr).unwrap() else {
        panic!("Expected rolls");
    };
    assert_eq!(rolls.len(), 10);
    assert!(rolls.iter().all(|&r| (1..=4).contains(&r)));
}

#[test]
fn repetition_of_constant_collects_copies() {
    let expr = rep(4, num(7), vec![]);
    let EvalResult::Rolls(rolls) = eval_expr(&expr).unwrap() else {
        panic!("Expected rolls");
    };
    assert_eq!(rolls, vec![7, 7, 7, 7]);
}

#[test]
fn division_truncates_toward_zero() {
    assert_eq!(eval_expr(&binop(num(7), '/', num(2))).unwrap().to_number(), 3);
    assert_eq!(eval_expr(&binop(num(-7), '/', num(2))).unwrap().to_number(), -3);
    assert_eq!(eval_expr(&binop(num(7), '/', num(-2))).unwrap().to_number(), -3);
}

#[test]
fn arithmetic_wraps_on_the_32_bit_width() {
    let expr = binop(num(i32::MAX), '+', num(1));
    assert_eq!(eval_expr(&expr).unwrap().to_number(), i32::MIN);
    let expr = binop(num(i32::MIN), '/', num(-1));
    assert_eq!(eval_expr(&expr).unwrap().to_number(), i32::MIN);
}

#[test]
fn rolls_vary_rather_than_echo_the_side_count() {
    // 100 six-sided draws all landing on 6 has probability 6^-100: if the
    // random source merely echoed the side count, every roll would be 6.
    let expr = dice(100, 6, vec![]);
    let EvalResult::Rolls(rolls) = eval_expr(&expr).unwrap() else {
        panic!("Expected rolls");
    };
    assert_eq!(rolls.len(), 100);
    assert!(rolls.iter().any(|&r| r != 6));
}

#[test]
fn to_number_sums_rolls() {
    let r = EvalResult::Rolls(vec![1, 2, 3]);
    assert_eq!(r.to_number(), 6);
    let n = EvalResult::Number(9);
    assert_eq!(n.to_number(), 9);
    let e = EvalResult::Rolls(vec![]);
    assert_eq!(e.to_number(), 0);
}
