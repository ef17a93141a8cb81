use roll::parser::{parse, DiceModifier, DiceModifierType, Expr, ParseErrorKind};

fn parse_and_compare(input: &str, expected: Expr) {
    let exprs = parse(input).expect("Failed to parse");
    assert_eq!(exprs[0], expected);
}

#[test]
fn test_simple_number() {
    parse_and_compare("4", Expr::Number(4));
}

#[test]
fn test_simple_dice() {
    parse_and_compare(
        "3d6",
        Expr::Dice {
            count: Box::new(Expr::Number(3)),
            sides: Box::new(Expr::Number(6)),
            modifiers: vec![],
        },
    );
}

#[test]
fn test_dice_with_keep_high() {
    parse_and_compare(
        "4d6kh3",
        Expr::Dice {
            count: Box::new(Expr::Number(4)),
            sides: Box::new(Expr::Number(6)),
            modifiers: vec![DiceModifier {
                kind: DiceModifierType::KeepHigh,
                value: Some(Box::new(Expr::Number(3))),
            }],
        },
    );
}

#[test]
fn test_dice_with_explode() {
    parse_and_compare(
        "3d3!",
        Expr::Dice {
            count: Box::new(Expr::Number(3)),
            sides: Box::new(Expr::Number(3)),
            modifiers: vec![DiceModifier { kind: DiceModifierType::Explode, value: None }],
        },
    );
}

#[test]
fn test_binary_operation() {
    parse_and_compare(
        "2d6 + 3",
        Expr::BinaryOp(
            Box::new(Expr::Dice {
                count: Box::new(Expr::Number(2)),
                sides: Box::new(Expr::Number(6)),
                modifiers: vec![],
            }),
            '+',
            Box::new(Expr::Number(3)),
        ),
    );
}

#[test]
fn test_nested_binary_ops() {
    parse_and_compare(
        "2d6 + 3 * 2",
        Expr::BinaryOp(
            Box::new(Expr::Dice {
                count: Box::new(Expr::Number(2)),
                sides: Box::new(Expr::Number(6)),
                modifiers: vec![],
            }),
            '+',
            Box::new(Expr::BinaryOp(
                Box::new(Expr::Number(3)),
                '*',
                Box::new(Expr::Number(2)),
            )),
        ),
    );
}

#[test]
fn test_repetition_syntax() {
    parse_and_compare(
        "3(1d6)",
        Expr::Repetition {
            count: Box::new(Expr::Number(3)),
            expr: Box::new(Expr::Dice {
                count: Box::new(Expr::Number(1)),
                sides: Box::new(Expr::Number(6)),
                modifiers: vec![],
            }),
            modifiers: vec![],
        },
    );
}

#[test]
fn test_repetition_with_modifiers() {
    parse_and_compare(
        "2(4d6)kh3",
        Expr::Repetition {
            count: Box::new(Expr::Number(2)),
            expr: Box::new(Expr::Dice {
                count: Box::new(Expr::Number(4)),
                sides: Box::new(Expr::Number(6)),
                modifiers: vec![],
            }),
            modifiers: vec![DiceModifier {
                kind: DiceModifierType::KeepHigh,
                value: Some(Box::new(Expr::Number(3))),
            }],
        },
    );
}

#[test]
fn operators_bind_without_whitespace_too() {
    parse_and_compare(
        "2d6+3",
        Expr::BinaryOp(
            Box::new(Expr::Dice {
                count: Box::new(Expr::Number(2)),
                sides: Box::new(Expr::Number(6)),
                modifiers: vec![],
            }),
            '+',
            Box::new(Expr::Number(3)),
        ),
    );
    parse_and_compare(
        "3*2",
        Expr::BinaryOp(Box::new(Expr::Number(3)), '*', Box::new(Expr::Number(2))),
    );
}

#[test]
fn test_multiple_expressions() {
    let input = "3d6 4(1d4) + 4";

    let exprs = parse(input).expect("Failed to parse");
    assert_eq!(exprs.len(), 2);

    assert!(matches!(exprs[0], Expr::Dice { .. }));
    assert!(matches!(exprs[1], Expr::BinaryOp(_, '+', _)));
}

#[test]
fn dice_without_count_defaults_to_one() {
    parse_and_compare(
        "d6",
        Expr::Dice {
            count: Box::new(Expr::Number(1)),
            sides: Box::new(Expr::Number(6)),
            modifiers: vec![],
        },
    );
}

#[test]
fn parenthesized_count_makes_nested_dice() {
    parse_and_compare(
        "(1d4)d6",
        Expr::Dice {
            count: Box::new(Expr::Dice {
                count: Box::new(Expr::Number(1)),
                sides: Box::new(Expr::Number(4)),
                modifiers: vec![],
            }),
            sides: Box::new(Expr::Number(6)),
            modifiers: vec![],
        },
    );
}

#[test]
fn drop_modifiers_parse_like_keeps() {
    parse_and_compare(
        "4d6dl1dh1",
        Expr::Dice {
            count: Box::new(Expr::Number(4)),
            sides: Box::new(Expr::Number(6)),
            modifiers: vec![
                DiceModifier {
                    kind: DiceModifierType::DropLow,
                    value: Some(Box::new(Expr::Number(1))),
                },
                DiceModifier {
                    kind: DiceModifierType::DropHigh,
                    value: Some(Box::new(Expr::Number(1))),
                },
            ],
        },
    );
}

#[test]
fn keep_low_modifier_parses() {
    parse_and_compare(
        "2d20kl1",
        Expr::Dice {
            count: Box::new(Expr::Number(2)),
            sides: Box::new(Expr::Number(20)),
            modifiers: vec![DiceModifier {
                kind: DiceModifierType::KeepLow,
                value: Some(Box::new(Expr::Number(1))),
            }],
        },
    );
}

#[test]
fn parenthesized_expression_groups() {
    parse_and_compare(
        "(1 + 2) * 3",
        Expr::BinaryOp(
            Box::new(Expr::BinaryOp(
                Box::new(Expr::Number(1)),
                '+',
                Box::new(Expr::Number(2)),
            )),
            '*',
            Box::new(Expr::Number(3)),
        ),
    );
}

#[test]
fn empty_input_is_an_error() {
    let err = parse("").unwrap_err();
    assert_eq!(err.kind, ParseErrorKind::NoExpressions);
    let err = parse("   ").unwrap_err();
    assert_eq!(err.kind, ParseErrorKind::NoExpressions);
}

#[test]
fn unclosed_paren_is_an_error() {
    let err = parse("(1d6").unwrap_err();
    assert_eq!(err.kind, ParseErrorKind::UnclosedParen);
}

#[test]
fn parse_errors_describe_themselves() {
    let err = parse("").unwrap_err();
    assert_eq!(err.message(), "no expressions found");
    let err = parse("(1d6").unwrap_err();
    assert_eq!(err.message(), "missing closing parenthesis");
}

#[test]
fn modifier_without_value_is_an_error() {
    let err = parse("4d6kh").unwrap_err();
    assert_eq!(err.kind, ParseErrorKind::ModifierNeedsValue);
}

#[test]
fn oversized_number_is_an_overflow_error() {
    let err = parse("9999999999").unwrap_err();
    assert_eq!(err.kind, ParseErrorKind::NumberOverflow);
    assert!(parse("2147483647").is_ok());
    assert_eq!(parse("2147483648").unwrap_err().kind, ParseErrorKind::NumberOverflow);
}

#[test]
fn dangling_operator_is_an_error() {
    assert!(parse("+").is_err());
    assert!(parse("1 +").is_err());
}

#[test]
fn dice_without_sides_is_an_error() {
    let err = parse("4d").unwrap_err();
    assert_eq!(err.kind, ParseErrorKind::UnexpectedEnd);
}

#[test]
fn error_positions_point_into_the_input() {
    let err = parse("1 + $").unwrap_err();
    assert_eq!(err.kind, ParseErrorKind::UnexpectedChar);
    assert_eq!(err.pos, 4);
}

#[test]
fn parse_then_evaluate_a_constant_expression() {
    let exprs = parse("10 + 2 * 3").unwrap();
    assert_eq!(exprs.len(), 1);
    assert_eq!(roll::eval::eval_expr(&exprs[0]).unwrap().to_number(), 16);
}
