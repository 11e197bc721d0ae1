use calculator::evaluator::{Evaluator, EvaluatorError, Expr};
use calculator::lexer::{Operator, Token};

fn number(text: &str) -> Token {
    Token::Number(text.as_bytes().to_vec())
}

fn value(e: &Expr) -> f32 {
    match e {
        Expr::Number(bytes) => std::str::from_utf8(bytes).unwrap().parse::<f32>().unwrap(),
        Expr::Binary(op, l, r) => {
            let (a, b) = (value(l), value(r));
            match op {
                Operator::ADD => a + b,
                Operator::SUB => a - b,
                Operator::MULT => a * b,
                Operator::DIV => a / b,
            }
        }
    }
}

fn evaluate(list: Vec<Token>) -> Result<f32, EvaluatorError> {
    Evaluator::evaluate(list).map(|t| t.as_ref().map(value).unwrap_or(0.0))
}

#[test]
fn simple_add() {
    let rpn_token_list = vec![number("5"), number("5"), Token::Operator(Operator::ADD)];
    let expected = 10.0;
    let actual = evaluate(rpn_token_list).unwrap();
    assert_eq!(actual, expected)
}

#[test]
fn simple_sub() {
    let rpn_token_list = vec![number("25"), number("5"), Token::Operator(Operator::SUB)];
    let expected = 20.0;
    let actual = evaluate(rpn_token_list).unwrap();
    assert_eq!(actual, expected)
}

#[test]
fn simple_multiply() {
    let rpn_token_list = vec![number("5"), number("5"), Token::Operator(Operator::MULT)];
    let expected = 25.0;
    let actual = evaluate(rpn_token_list).unwrap();
    assert_eq!(actual, expected)
}

#[test]
fn simple_divide() {
    let rpn_token_list = vec![number("25"), number("5"), Token::Operator(Operator::DIV)];
    let expected = 5.0;
    let actual = evaluate(rpn_token_list).unwrap();
    assert_eq!(actual, expected)
}

#[test]
fn full() {
    let rpn_token_list = vec![
        number("3"),
        number("4"),
        Token::Operator(Operator::ADD),
        number("10"),
        Token::Operator(Operator::MULT),
        number("35"),
        Token::Operator(Operator::DIV),
    ];
    let expected = 2.0;
    let actual = evaluate(rpn_token_list).unwrap();
    assert_eq!(actual, expected)
}

#[test]
fn missing_left_operand() {
    let rpn_token_list = vec![number("4"), Token::Operator(Operator::ADD)];
    let result = Evaluator::evaluate(rpn_token_list);
    assert!(result.is_err());
    assert_eq!(result.unwrap_err(), EvaluatorError::MissingOperand);
}

#[test]
fn missing_right_operand() {
    let rpn_token_list = vec![Token::Operator(Operator::ADD)];
    let result = Evaluator::evaluate(rpn_token_list);
    assert!(result.is_err());
    assert_eq!(result.unwrap_err(), EvaluatorError::MissingOperand);
}

#[test]
fn empty_postfix_is_zero() {
    let result = Evaluator::evaluate(vec![]);
    assert!(matches!(result, Ok(None)));
    assert_eq!(evaluate(vec![]).unwrap(), 0.0);
}

#[test]
fn stray_number_is_not_single_result() {
    let result = Evaluator::evaluate(vec![number("1"), number("2")]);
    assert_eq!(result.unwrap_err(), EvaluatorError::NotSingleResultInStack);
}

#[test]
fn operand_order_is_left_then_right() {
    let result = Evaluator::evaluate(vec![number("8"), number("2"), Token::Operator(Operator::SUB)]);
    match result.unwrap().unwrap() {
        Expr::Binary(Operator::SUB, l, r) => {
            assert!(matches!(*l, Expr::Number(ref b) if b == b"8"));
            assert!(matches!(*r, Expr::Number(ref b) if b == b"2"));
        }
        other => panic!("unexpected tree {:?}", other),
    }
}

#[test]
fn division_by_zero_is_not_an_error() {
    let v = evaluate(vec![number("1"), number("0"), Token::Operator(Operator::DIV)]).unwrap();
    assert!(v.is_infinite());
}

#[test]
fn single_number_is_its_value() {
    assert_eq!(evaluate(vec![number("7.5")]).unwrap(), 7.5);
}

#[test]
fn operator_starved_after_a_full_reduction() {
    let list = vec![number("1"), number("2"), Token::Operator(Operator::ADD), Token::Operator(Operator::MULT)];
    assert_eq!(Evaluator::evaluate(list).unwrap_err(), EvaluatorError::MissingOperand);
}
