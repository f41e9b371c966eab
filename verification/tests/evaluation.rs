use calculator::expr::Expr;
use calculator::operator::OpCode;
use calculator::pipeline::process;

/// Apply a binary operator's arithmetic.
fn apply2(op: OpCode, x: f64, y: f64) -> f64 {
    match op {
        OpCode::Plus => x + y,
        OpCode::Minus => x - y,
        OpCode::Mul => x * y,
        OpCode::Div => x / y,
        OpCode::Pow => x.powf(y),
        _ => panic!("unary operator applied to two operands"),
    }
}

/// Apply a unary operator's arithmetic.
fn apply1(op: OpCode, x: f64) -> f64 {
    match op {
        OpCode::Sin => x.sin(),
        OpCode::Cos => x.cos(),
        OpCode::Tan => x.tan(),
        _ => panic!("binary operator applied to one operand"),
    }
}

/// Fold the evaluation tree the library built into a number.
fn fold(e: &Expr) -> f64 {
    match e {
        Expr::Num(cs) => cs.iter().collect::<String>().parse::<f64>().unwrap(),
        Expr::Unary(op, a) => apply1(*op, fold(a)),
        Expr::Binary(op, a, b) => apply2(*op, fold(a), fold(b)),
    }
}

/// Quantize to two decimal places, as the default output mode does.
fn round2(x: f64) -> f64 {
    (x * 100.0).round() / 100.0
}

/// The whole evaluation: parse through the library, then apply the
/// floating-point arithmetic and the optional rounding.
fn evaluate(input: &str, precise: bool) -> f64 {
    let e = process(input).unwrap();
    let res = fold(&e);
    if precise {
        res
    } else {
        round2(res)
    }
}

#[test]
fn basic_arithmetic() {
    assert_eq!(evaluate("(1+1)*2/4-7", false), -6.0);
}

#[test]
fn other_arithmetic() {
    assert_eq!(evaluate("2p2p2", false), 16.0);

    assert_eq!(
        evaluate(&format!("sin{}", std::f32::consts::PI * 2.5), false),
        1.0
    );
    assert_eq!(
        evaluate(&format!("cos{}", std::f32::consts::PI * 2.5), false),
        0.0
    );
    assert_eq!(
        evaluate(&format!("tan{}", std::f32::consts::PI * 2.0), false),
        0.0
    );
}

#[test]
fn brackets() {
    assert_eq!(evaluate("(1+1)", false), 2.0);
    assert_eq!(evaluate("(1+1)*2", false), 4.0);
    assert_eq!(evaluate("((1)+(1))", false), 2.0);
    assert_eq!(evaluate("(((1)))", false), 1.0);
}

#[test]
fn zeros() {
    assert_eq!(evaluate("1+(-1)", false), 0.0);
    assert_eq!(evaluate("(-1)", false), -1.0);
}

#[test]
fn precise() {
    assert!(evaluate("1/9", false).to_string().len() < 5);
    assert!(evaluate("1/9", true).to_string().len() > 5);
}

#[test]
fn precedence_without_brackets() {
    assert_eq!(evaluate("1+2*3", false), 7.0);
    assert_eq!(evaluate("10-4/2", false), 8.0);
    assert_eq!(evaluate("2*3+4*5", false), 26.0);
}

#[test]
fn power_is_left_associative() {
    assert_eq!(evaluate("2p3p2", false), 64.0);
    assert_eq!(evaluate("2p3", false), 8.0);
}

#[test]
fn unary_minus_at_start() {
    assert_eq!(evaluate("-1", false), -1.0);
    assert_eq!(evaluate("-2*3", false), -6.0);
}

#[test]
fn decimals_round_by_default() {
    assert_eq!(evaluate("1.234+0", false), 1.23);
    assert_eq!(evaluate("1.25+0", false), 1.25);
    assert_eq!(evaluate("1.25+0", true), 1.25);
}

#[test]
fn rounding_is_idempotent_on_rounded_values() {
    let once = evaluate("1/9", false);
    assert_eq!(round2(once), once);
}

#[test]
fn precision_flag_keeps_sign_and_magnitude() {
    let rounded = evaluate("1/9", false);
    let full = evaluate("1/9", true);
    assert!(rounded > 0.0 && full > 0.0);
    assert!((rounded - full).abs() < 0.005);

    let rounded_neg = evaluate("-1/9", false);
    let full_neg = evaluate("-1/9", true);
    assert!(rounded_neg < 0.0 && full_neg < 0.0);
    assert!((rounded_neg - full_neg).abs() < 0.005);
}

#[test]
fn deep_bracket_nesting() {
    assert_eq!(evaluate("((((5))))", false), 5.0);
    assert_eq!(evaluate("(((2))+((3)))", false), 5.0);
}

#[test]
fn function_argument_in_brackets() {
    assert_eq!(evaluate("sin(0)", false), 0.0);
    assert_eq!(evaluate("cos(0)*2", false), 2.0);
}

#[test]
fn function_application_without_brackets() {
    assert_eq!(evaluate("sin0", false), 0.0);
    assert_eq!(evaluate("cos0", false), 1.0);
    assert_eq!(evaluate("tan0", false), 0.0);
}
