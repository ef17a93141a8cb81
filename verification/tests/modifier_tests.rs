use roll::eval::{drop_high, drop_low, eval_expr, keep_high, keep_low, EvalResult};
use roll::parser::{DiceModifier, DiceModifierType, Expr};

#[test]
fn keep_high_keeps_the_largest() {
    assert_eq!(keep_high(vec![3, 1, 4, 1, 5], 2), vec![5, 4]);
    assert_eq!(keep_high(vec![2, 2, 2], 2), vec![2, 2]);
}

#[test]
fn keep_low_keeps_the_smallest() {
    assert_eq!(keep_low(vec![3, 1, 4, 1, 5], 2), vec![1, 1]);
}

#[test]
fn drop_high_removes_the_largest() {
    assert_eq!(drop_high(vec![3, 1, 4, 1, 5], 2), vec![3, 1, 1]);
}

#[test]
fn drop_low_removes_the_smallest() {
    assert_eq!(drop_low(vec![3, 1, 4, 1, 5], 2), vec![3, 4, 5]);
}

#[test]
fn keep_and_drop_clamp_to_the_available_length() {
    assert_eq!(keep_high(vec![2, 1], 5), vec![2, 1]);
    assert_eq!(keep_low(vec![2, 1], 5), vec![1, 2]);
    assert_eq!(drop_high(vec![2, 1], 5), Vec::<i32>::new());
    assert_eq!(drop_low(vec![2, 1], 5), Vec::<i32>::new());
    assert_eq!(keep_high(vec![2, 1], 0), Vec::<i32>::new());
    assert_eq!(keep_high(vec![2, 1], -1), Vec::<i32>::new());
    assert_eq!(drop_low(vec![2, 1], -1), vec![1, 2]);
}

#[test]
fn keep_high_through_evaluation_keeps_the_three_largest() {
    // 10d6kh3: the kept rolls are the three largest, in descending order.
    let expr = Expr::Dice {
        count: Box::new(Expr::Number(10)),
        sides: Box::new(Expr::Number(6)),
        modifiers: vec![DiceModifier {
            kind: DiceModifierType::KeepHigh,
            value: Some(Box::new(Expr::Number(3))),
        }],
    };
    let EvalResult::Rolls(rolls) = eval_expr(&expr).unwrap() else {
        panic!("Expected rolls");
    };
    assert_eq!(rolls.len(), 3);
    assert!(rolls[0] >= rolls[1] && rolls[1] >= rolls[2]);
    assert!(rolls.iter().all(|&r| (1..=6).contains(&r)));
}

#[test]
fn modifiers_apply_left_to_right() {
    // Keeping the top four then dropping the lowest of those leaves three.
    let expr = Expr::Dice {
        count: Box::new(Expr::Number(6)),
        sides: Box::new(Expr::Number(6)),
        modifiers: vec![
            DiceModifier {
                kind: DiceModifierType::KeepHigh,
                value: Some(Box::new(Expr::Number(4))),
            },
            DiceModifier {
                kind: DiceModifierType::DropLow,
                value: Some(Box::new(Expr::Number(1))),
            },
        ],
    };
    let EvalResult::Rolls(rolls) = eval_expr(&expr).unwrap() else {
        panic!("Expected rolls");
    };
    assert_eq!(rolls.len(), 3);
}

#[test]
fn repetition_modifiers_filter_collected_results() {
    // 4 repetitions of the constant 7, keeping the top 2: exactly [7, 7].
    let expr = Expr::Repetition {
        count: Box::new(Expr::Number(4)),
        expr: Box::new(Expr::Number(7)),
        modifiers: vec![DiceModifier {
            kind: DiceModifierType::KeepHigh,
            value: Some(Box::new(Expr::Number(2))),
        }],
    };
    let EvalResult::Rolls(rolls) = eval_expr(&expr).unwrap() else {
        panic!("Expected rolls");
    };
    assert_eq!(rolls, vec![7, 7]);
}

#[test]
fn modifier_value_may_be_an_expression() {
    let parsed = roll::parser::parse("10d6kh(1+2)").unwrap();
    let EvalResult::Rolls(rolls) = eval_expr(&parsed[0]).unwrap() else {
        panic!("Expected rolls");
    };
    assert_eq!(rolls.len(), 3);
}
