use dice_expr::ast::{Expected, Expr, Op, SyntaxError};
use dice_expr::parse::parse;

/// The numeric value of a literal's bytes, by standard conversion.
fn lit_f64(lit: &[u8]) -> f64 {
    std::str::from_utf8(lit).unwrap().parse::<f64>().unwrap()
}

/// Evaluate a parsed tree that contains no dice roll.
fn eval(e: &Expr) -> f64 {
    match e {
        Expr::Num { lit } => lit_f64(lit),
        Expr::Dice { .. } => panic!("dice have no deterministic value"),
        Expr::App { op, args } => {
            let vals: Vec<f64> = args.iter().map(eval).collect();
            match op {
                Op::Add => vals[0] + vals[1],
                Op::Sub => vals[0] - vals[1],
                Op::Mul => vals[0] * vals[1],
                Op::Div => vals[0] / vals[1],
                Op::Max => vals.iter().fold(f64::NEG_INFINITY, |a, &b| a.max(b)),
                Op::Min => vals.iter().fold(f64::INFINITY, |a, &b| a.min(b)),
            }
        }
    }
}

fn parsed_value(input: &[u8]) -> f64 {
    eval(&parse(input).unwrap())
}

#[test]
fn literal_parses_to_standard_value() {
    for input in [
        &b"0"[..],
        b"3",
        b"17.89",
        b"1.5e+1",
        b"0.5",
        b"12345",
        b"2E3",
        b"7e-2",
        b"-2.5",
        b"-0",
    ] {
        let e = parse(input).unwrap();
        match &e {
            Expr::Num { lit } => {
                assert_eq!(&lit[..], input);
                let expected: f64 = std::str::from_utf8(input).unwrap().parse().unwrap();
                assert_eq!(lit_f64(lit), expected);
            }
            other => panic!("expected a number, got {:?}", other),
        }
    }
}

#[test]
fn add_sub_mul_div_values() {
    assert_eq!(parsed_value(b"(add 1 2)"), 3.0);
    assert_eq!(parsed_value(b"(sub 5 2.5)"), 2.5);
    assert_eq!(parsed_value(b"(mul 3 1.5e+1)"), 45.0);
    let v = parsed_value(b"(div 4 0)");
    assert!(v.is_infinite() && v > 0.0);
}

#[test]
fn max_min_values() {
    assert_eq!(parsed_value(b"(max 9 17.89)"), 17.89);
    assert_eq!(parsed_value(b"(min 9 17.89)"), 9.0);
}

#[test]
fn max_of_three_is_order_independent() {
    for input in [
        &b"(max 1 3 2)"[..],
        b"(max 3 1 2)",
        b"(max 2 3 1)",
        b"(max 1 2 3)",
        b"(max 3 2 1)",
        b"(max 2 1 3)",
    ] {
        assert_eq!(parsed_value(input), 3.0);
    }
}

#[test]
fn nested_expression_value() {
    assert_eq!(
        parsed_value(b"(max (div (add 1 (mul 3 1.5e+1)) 4) 17.89)"),
        17.89
    );
}

#[test]
fn nested_expression_tree() {
    let e = parse(b"(add 1 (mul 3 2))").unwrap();
    match &e {
        Expr::App { op: Op::Add, args } => {
            assert_eq!(args.len(), 2);
            assert!(matches!(&args[0], Expr::Num { lit } if lit == b"1"));
            match &args[1] {
                Expr::App { op: Op::Mul, args: inner } => {
                    assert!(matches!(&inner[0], Expr::Num { lit } if lit == b"3"));
                    assert!(matches!(&inner[1], Expr::Num { lit } if lit == b"2"));
                }
                other => panic!("expected a product, got {:?}", other),
            }
        }
        other => panic!("expected a sum, got {:?}", other),
    }
}

#[test]
fn missing_second_operand_fails_at_offset() {
    assert_eq!(
        parse(b"(add 1)"),
        Err(SyntaxError { offset: 6, expected: Expected::Expression })
    );
}

#[test]
fn max_without_operands_fails_at_offset() {
    assert_eq!(
        parse(b"(max)"),
        Err(SyntaxError { offset: 4, expected: Expected::Expression })
    );
}

#[test]
fn leading_zero_fails_at_offset() {
    assert_eq!(
        parse(b"007"),
        Err(SyntaxError { offset: 1, expected: Expected::EndOfInput })
    );
}

#[test]
fn fraction_without_digits_fails_at_offset() {
    assert_eq!(
        parse(b"1."),
        Err(SyntaxError { offset: 1, expected: Expected::EndOfInput })
    );
}

#[test]
fn bare_minus_fails() {
    assert_eq!(
        parse(b"-"),
        Err(SyntaxError { offset: 0, expected: Expected::Expression })
    );
}

#[test]
fn unclosed_paren_fails_expecting_close() {
    assert_eq!(
        parse(b"(add 1 2"),
        Err(SyntaxError { offset: 8, expected: Expected::CloseParen })
    );
}

#[test]
fn unknown_keyword_fails() {
    assert_eq!(
        parse(b"(pow 1 2)"),
        Err(SyntaxError { offset: 1, expected: Expected::Operator })
    );
}

#[test]
fn dice_without_number_fails_expecting_number() {
    assert_eq!(
        parse(b"dx"),
        Err(SyntaxError { offset: 1, expected: Expected::Number })
    );
}

#[test]
fn empty_input_fails() {
    assert_eq!(
        parse(b""),
        Err(SyntaxError { offset: 0, expected: Expected::Expression })
    );
}

#[test]
fn reparsing_yields_identical_result() {
    let a = parse(b"(max (div (add 1 (mul 3 1.5e+1)) 4) 17.89)");
    let b = parse(b"(max (div (add 1 (mul 3 1.5e+1)) 4) 17.89)");
    assert_eq!(a, b);
    let c = parse(b"007");
    let d = parse(b"007");
    assert_eq!(c, d);
}

#[test]
fn whitespace_between_tokens_changes_nothing() {
    let plain = parse(b"(add 1 2)").unwrap();
    let spaced = parse(b"( add  1   2 )").unwrap();
    let newlines = parse(b"(add\n1\n2)").unwrap();
    assert_eq!(plain, spaced);
    assert_eq!(plain, newlines);
    assert_eq!(eval(&plain), 3.0);
    assert_eq!(eval(&spaced), 3.0);
    assert_eq!(eval(&newlines), 3.0);
    let padded = parse(b" \t\r\n 17.89 \t\r\n ").unwrap();
    assert!(matches!(&padded, Expr::Num { lit } if lit == b"17.89"));
}

#[test]
fn dice_parses_to_its_bound_literal() {
    let e = parse(b"d20").unwrap();
    assert!(matches!(&e, Expr::Dice { lit } if lit == b"20"));
    let nested = parse(b"(max d20 d20)").unwrap();
    match &nested {
        Expr::App { op: Op::Max, args } => {
            assert_eq!(args.len(), 2);
            assert!(matches!(&args[0], Expr::Dice { lit } if lit == b"20"));
            assert!(matches!(&args[1], Expr::Dice { lit } if lit == b"20"));
        }
        other => panic!("expected a max application, got {:?}", other),
    }
}

#[test]
fn trailing_garbage_after_expression_fails() {
    assert_eq!(
        parse(b"(add 1 2) x"),
        Err(SyntaxError { offset: 10, expected: Expected::EndOfInput })
    );
}

#[test]
fn maximal_munch_keeps_exponent_with_number() {
    let e = parse(b"1.5e+1").unwrap();
    assert!(matches!(&e, Expr::Num { lit } if lit == b"1.5e+1"));
    // `1e` is a number `1` followed by a stray `e`.
    assert_eq!(
        parse(b"1e"),
        Err(SyntaxError { offset: 1, expected: Expected::EndOfInput })
    );
}
