use calculator::evaluator::{EvaluatorError, Expr};
use calculator::expression::{evaluate_expression, EvaluationError};
use calculator::lexer::Operator;
use calculator::parser::ParserError;

fn value(e: &Expr) -> f32 {
    match e {
        Expr::Number(bytes) => std::str::from_utf8(bytes).unwrap().parse::<f32>().unwrap(),
        Expr::Binary(op, l, r) => {
            let (a, b) = (value(l), value(r));
            match op {
                Operator::ADD => a + b,
                Operator::SUB => a - b,
                Operator::MULT => a * b,
                Operator::DIV => a / b,
            }
        }
    }
}

fn calc(text: &str) -> Result<f32, EvaluationError> {
    evaluate_expression(text).map(|t| t.as_ref().map(value).unwrap_or(0.0))
}

#[test]
fn precedence_and_parentheses_give_the_right_value() {
    assert!((calc("3+4*10/35").unwrap() - (3.0 + 40.0 / 35.0)).abs() < 1e-5);
    assert_eq!(calc("(3+4)*10/35").unwrap(), 2.0);
    assert_eq!(calc("1*(2+3)").unwrap(), 5.0);
    assert_eq!(calc("12+45/8*9").unwrap(), 62.625);
}

#[test]
fn multiplication_binds_tighter_without_parentheses() {
    assert_eq!(calc("1*2+3").unwrap(), 5.0);
    assert_eq!(calc("1+2*3").unwrap(), 7.0);
}

#[test]
fn unmatched_close_fails() {
    let want = EvaluationError::Parser(ParserError::MissingLeftParenthesis);
    assert_eq!(calc(")").unwrap_err(), want);
    assert_eq!(calc("1*2+3)").unwrap_err(), want);
}

#[test]
fn unmatched_open_fails() {
    let want = EvaluationError::Parser(ParserError::MissingRightParenthesis);
    assert_eq!(calc("(").unwrap_err(), want);
    assert_eq!(calc("1*(2+3").unwrap_err(), want);
}

#[test]
fn operator_without_operands_fails() {
    let want = EvaluationError::Evaluator(EvaluatorError::MissingOperand);
    assert_eq!(calc("+").unwrap_err(), want);
    assert_eq!(calc("4+").unwrap_err(), want);
}

#[test]
fn first_bad_character_is_reported() {
    let want = EvaluationError::Parser(ParserError::BadToken('e'));
    assert_eq!(calc("excellent;1*(2+3").unwrap_err(), want);
    assert_eq!(calc("excellent").unwrap_err(), want);
    let want = EvaluationError::Parser(ParserError::BadToken('\u{e9}'));
    assert_eq!(calc("1+\u{e9}").unwrap_err(), want);
}

#[test]
fn empty_text_is_zero() {
    assert!(matches!(evaluate_expression(""), Ok(None)));
    assert_eq!(calc("  ").unwrap(), 0.0);
}

#[test]
fn two_numbers_without_operator_fail() {
    let want = EvaluationError::Evaluator(EvaluatorError::NotSingleResultInStack);
    assert_eq!(calc("1 2").unwrap_err(), want);
}

#[test]
fn same_text_gives_same_result() {
    for text in ["3+4*10/35", "1*(2+3", ")", "", "2/0"] {
        assert_eq!(format!("{:?}", calc(text)), format!("{:?}", calc(text)));
    }
}
