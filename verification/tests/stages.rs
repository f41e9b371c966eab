use calculator::expr::Expr;
use calculator::operator::{Cos, Div, Minus, Mul, OpCode, OperatorStore, Plus, Pow, Sin, Tan};
use calculator::pipeline::process;
use calculator::token::{EvalError, Token};

#[test]
fn empty_input_is_its_own_failure() {
    assert!(matches!(process(""), Err(EvalError::EmptyInput)));
}

#[test]
fn unknown_characters_are_lexical_failures() {
    assert!(matches!(process("x"), Err(EvalError::LexError)));
    assert!(matches!(process("1+x"), Err(EvalError::LexError)));
    assert!(matches!(process("1&2"), Err(EvalError::LexError)));
}

#[test]
fn bad_literals_are_lexical_failures() {
    assert!(matches!(process("1..2"), Err(EvalError::LexError)));
    assert!(matches!(process("1.2.3+1"), Err(EvalError::LexError)));
}

#[test]
fn trailing_operator_is_malformed() {
    assert!(matches!(process("1+"), Err(EvalError::MalformedExpression)));
    assert!(matches!(process("-"), Err(EvalError::MalformedExpression)));
}

#[test]
fn stray_brackets_are_malformed() {
    assert!(matches!(process(")"), Err(EvalError::MalformedExpression)));
    assert!(matches!(process("()"), Err(EvalError::MalformedExpression)));
    assert!(matches!(process("("), Err(EvalError::MalformedExpression)));
}

#[test]
fn adjacent_operands_are_malformed() {
    assert!(matches!(process("(1)(2)"), Err(EvalError::MalformedExpression)));
}

#[test]
fn unbalanced_operand_counts_are_malformed() {
    // One operand too few or too many never evaluates to a value.
    assert!(matches!(process("1+2+"), Err(EvalError::MalformedExpression)));
    assert!(matches!(process("1+2*"), Err(EvalError::MalformedExpression)));
    assert!(matches!(process("(-)"), Err(EvalError::MalformedExpression)));
}

fn num_is(e: &Expr, lit: &str) -> bool {
    match e {
        Expr::Num(cs) => cs.iter().collect::<String>() == lit,
        _ => false,
    }
}

#[test]
fn tree_respects_precedence() {
    // 1+2*3 parses as 1 + (2 * 3).
    let e = process("1+2*3").unwrap();
    match e {
        Expr::Binary(OpCode::Plus, l, r) => {
            assert!(num_is(&l, "1"));
            match *r {
                Expr::Binary(OpCode::Mul, rl, rr) => {
                    assert!(num_is(&rl, "2"));
                    assert!(num_is(&rr, "3"));
                }
                other => panic!("unexpected right child: {:?}", fold_shape(&other)),
            }
        }
        other => panic!("unexpected tree: {:?}", fold_shape(&other)),
    }
}

#[test]
fn tree_of_chained_power_leans_left() {
    // 2p3p2 parses as (2 p 3) p 2.
    let e = process("2p3p2").unwrap();
    match e {
        Expr::Binary(OpCode::Pow, l, r) => {
            assert!(num_is(&r, "2"));
            match *l {
                Expr::Binary(OpCode::Pow, ll, lr) => {
                    assert!(num_is(&ll, "2"));
                    assert!(num_is(&lr, "3"));
                }
                other => panic!("unexpected left child: {:?}", fold_shape(&other)),
            }
        }
        other => panic!("unexpected tree: {:?}", fold_shape(&other)),
    }
}

#[test]
fn leading_minus_becomes_zero_minus() {
    // -1 parses as 0 - 1.
    let e = process("-1").unwrap();
    match e {
        Expr::Binary(OpCode::Minus, l, r) => {
            assert!(num_is(&l, "0"));
            assert!(num_is(&r, "1"));
        }
        other => panic!("unexpected tree: {:?}", fold_shape(&other)),
    }
}

#[test]
fn bracket_minus_becomes_zero_minus() {
    // 1+(-1) parses as 1 + (0 - 1).
    let e = process("1+(-1)").unwrap();
    match e {
        Expr::Binary(OpCode::Plus, l, r) => {
            assert!(num_is(&l, "1"));
            match *r {
                Expr::Binary(OpCode::Minus, rl, rr) => {
                    assert!(num_is(&rl, "0"));
                    assert!(num_is(&rr, "1"));
                }
                other => panic!("unexpected right child: {:?}", fold_shape(&other)),
            }
        }
        other => panic!("unexpected tree: {:?}", fold_shape(&other)),
    }
}

/// A short printable shape of a tree, for failure messages.
fn fold_shape(e: &Expr) -> String {
    match e {
        Expr::Num(cs) => cs.iter().collect(),
        Expr::Unary(op, a) => format!("{:?}({})", op, fold_shape(a)),
        Expr::Binary(op, a, b) => format!("({} {:?} {})", fold_shape(a), op, fold_shape(b)),
    }
}

#[test]
fn matcher_resolves_single_characters_at_once() {
    let mut os = OperatorStore::new();
    let m = os.match_step('+');
    assert!(m.0);
    assert_eq!(m.2, 0);
    match m.1 {
        Some(Token::Op(OpCode::Plus)) => {}
        _ => panic!("expected the plus operator"),
    }
}

#[test]
fn matcher_reports_consumed_lookahead() {
    let mut os = OperatorStore::new();
    let m = os.match_step('s');
    assert!(m.0);
    assert_eq!(m.2, 2);
    match m.1 {
        Some(Token::Op(OpCode::Sin)) => {}
        _ => panic!("expected the sine operator"),
    }
}

#[test]
fn matcher_resets_after_a_failed_attempt() {
    let mut os = OperatorStore::new();
    let m = os.match_step('q');
    assert!(!m.0);
    assert!(m.1.is_none());
    // The failed attempt resets the matcher to the full candidate set,
    // so a fresh attempt succeeds at once.
    assert!(os.has_candidates());
    let m2 = os.match_step('+');
    assert!(m2.0);
    match m2.1 {
        Some(Token::Op(OpCode::Plus)) => {}
        _ => panic!("expected the plus operator"),
    }
    // An explicit reset is also available and leaves the matcher ready.
    os.new_match_step();
    assert!(os.has_candidates());
}

#[test]
fn registry_reports_precedence_and_arity() {
    let os = OperatorStore::new();
    assert_eq!(os.get_precedence(&Token::Bracket('(')), 255);
    assert_eq!(os.get_precedence(&Token::Bracket(')')), 255);
    assert_eq!(os.get_precedence(&Token::Op(OpCode::Plus)), 1);
    assert_eq!(os.get_precedence(&Token::Op(OpCode::Pow)), 3);
    let (code, arity) = os.calc_and_no_of_arguments(&OpCode::Sin);
    assert_eq!(code, OpCode::Sin);
    assert_eq!(arity, 1);
    let (code, arity) = os.calc_and_no_of_arguments(&OpCode::Div);
    assert_eq!(code, OpCode::Div);
    assert_eq!(arity, 2);
}

#[test]
fn operator_descriptors_match_the_catalog() {
    assert_eq!(Plus.code(), "+");
    assert_eq!(Plus.precedence(), 1);
    assert_eq!(Plus.no_of_operands(), 2);
    assert_eq!(Minus.code(), "-");
    assert_eq!(Minus.precedence(), 1);
    assert_eq!(Minus.no_of_operands(), 2);
    assert_eq!(Mul.code(), "*");
    assert_eq!(Mul.precedence(), 2);
    assert_eq!(Mul.no_of_operands(), 2);
    assert_eq!(Div.code(), "/");
    assert_eq!(Div.precedence(), 2);
    assert_eq!(Div.no_of_operands(), 2);
    assert_eq!(Pow.code(), "p");
    assert_eq!(Pow.precedence(), 3);
    assert_eq!(Pow.no_of_operands(), 2);
    assert_eq!(Sin.code(), "sin");
    assert_eq!(Sin.precedence(), 4);
    assert_eq!(Sin.no_of_operands(), 1);
    assert_eq!(Cos.code(), "cos");
    assert_eq!(Cos.precedence(), 4);
    assert_eq!(Cos.no_of_operands(), 1);
    assert_eq!(Tan.code(), "tan");
    assert_eq!(Tan.precedence(), 4);
    assert_eq!(Tan.no_of_operands(), 1);
}

#[test]
fn lookahead_skip_consumes_following_characters() {
    // `s` resolves to `sin` at once, so the two following characters are
    // treated as already consumed, leaving the operator without operand.
    assert!(matches!(process("s12"), Err(EvalError::MalformedExpression)));
}
