use calculator::lexer::{Operator, Token};
use calculator::parser::{Parser, ParserError};

#[derive(Debug)]
enum Want {
    Num(f32),
    Tok(Token),
}

fn check(actual: &Token, want: &Want) {
    match (actual, want) {
        (Token::Number(bytes), Want::Num(x)) => {
            let v = std::str::from_utf8(bytes).unwrap().parse::<f32>().unwrap();
            assert_eq!(v, *x);
        }
        (a, Want::Tok(t)) => assert_eq!(a, t),
        _ => panic!("got {:?}, wanted {:?}", actual, want),
    }
}

#[test]
pub fn test_shaunting() {
    let input = "1*2+3";
    let expected_token_list = vec![
        Want::Num(1.),
        Want::Num(2.),
        Want::Tok(Token::Operator(Operator::MULT)),
        Want::Num(3.),
        Want::Tok(Token::Operator(Operator::ADD)),
    ];
    let mut parser = Parser::from(input);
    let actual_token_list = parser.parse().unwrap();
    assert_eq!(actual_token_list.len(), expected_token_list.len());
    for (expected_token, actual_token) in expected_token_list.iter().zip(actual_token_list.iter()) {
        println!("{:?}", expected_token);
        check(actual_token, expected_token);
    }
}

#[test]
pub fn test_shaunting_paren() {
    let input = "1*(2+3)";
    let expected_token_list = vec![
        Want::Num(1.),
        Want::Num(2.),
        Want::Num(3.),
        Want::Tok(Token::Operator(Operator::ADD)),
        Want::Tok(Token::Operator(Operator::MULT)),
    ];
    let mut parser = Parser::from(input);
    let actual_token_list = parser.parse().unwrap();
    assert_eq!(actual_token_list.len(), expected_token_list.len());
    for (expected_token, actual_token) in expected_token_list.iter().zip(actual_token_list.iter()) {
        println!("{:?}", expected_token);
        check(actual_token, expected_token);
    }
}

#[test]
pub fn test_shaunting_complex() {
    let input = "12+45/8*9";
    let expected_token_list = vec![
        Want::Num(12.),
        Want::Num(45.),
        Want::Num(8.),
        Want::Tok(Token::Operator(Operator::DIV)),
        Want::Num(9.),
        Want::Tok(Token::Operator(Operator::MULT)),
        Want::Tok(Token::Operator(Operator::ADD)),
    ];
    let mut parser = Parser::from(input);
    let actual_token_list = parser.parse().unwrap();
    assert_eq!(actual_token_list.len(), expected_token_list.len());
    for (expected_token, actual_token) in expected_token_list.iter().zip(actual_token_list.iter()) {
        println!("{:?}", expected_token);
        check(actual_token, expected_token);
    }
}

#[test]
fn missing_left_parenthesis() {
    let input = "1*2+3)";
    let mut parser = Parser::from(input);
    let result = parser.parse();
    assert!(result.is_err());
    assert_eq!(result.unwrap_err(), ParserError::MissingLeftParenthesis);

    let input = ")";
    let mut parser = Parser::from(input);
    let result = parser.parse();
    assert!(result.is_err());
    assert_eq!(result.unwrap_err(), ParserError::MissingLeftParenthesis);
}

#[test]
fn missing_right_parenthesis() {
    let input = "1*(2+3";
    let mut parser = Parser::from(input);
    let result = parser.parse();
    assert!(result.is_err());
    assert_eq!(result.unwrap_err(), ParserError::MissingRightParenthesis);

    let input = "(";
    let mut parser = Parser::from(input);
    let result = parser.parse();
    assert!(result.is_err());
    assert_eq!(result.unwrap_err(), ParserError::MissingRightParenthesis);
}

#[test]
fn bad_token() {
    let input = "excellent;1*(2+3";
    let mut parser = Parser::from(input);
    let result = parser.parse();
    assert!(result.is_err());
    assert_eq!(result.unwrap_err(), ParserError::BadToken('e'));
}

#[test]
fn bad_token_after_valid_prefix() {
    let mut parser = Parser::from("1+2;3");
    assert_eq!(parser.parse().unwrap_err(), ParserError::BadToken(';'));
}

#[test]
fn unmatched_right_parenthesis_comes_before_later_bad_token() {
    let mut parser = Parser::from("1)x");
    assert_eq!(parser.parse().unwrap_err(), ParserError::MissingLeftParenthesis);
}

#[test]
fn equal_precedence_is_left_associative() {
    let mut parser = Parser::from("8-3-2");
    let postfix = parser.parse().unwrap();
    let expected = vec![
        Token::Number(b"8".to_vec()),
        Token::Number(b"3".to_vec()),
        Token::Operator(Operator::SUB),
        Token::Number(b"2".to_vec()),
        Token::Operator(Operator::SUB),
    ];
    assert_eq!(postfix, expected);
}

#[test]
fn empty_text_gives_empty_postfix() {
    let mut parser = Parser::from("   ");
    assert_eq!(parser.parse().unwrap(), Vec::<Token>::new());
}

#[test]
fn balanced_groups_parse_and_an_open_one_does_not() {
    let mut parser = Parser::from("((1))*(2)");
    assert!(parser.parse().is_ok());
    let mut parser = Parser::from("(()");
    assert_eq!(parser.parse().unwrap_err(), ParserError::MissingRightParenthesis);
    let mut parser = Parser::from("(1))(");
    assert_eq!(parser.parse().unwrap_err(), ParserError::MissingLeftParenthesis);
}

#[test]
fn numbers_keep_their_order() {
    let mut parser = Parser::from("7-(3*2+1)/5");
    let numerals: Vec<Vec<u8>> = parser
        .parse()
        .unwrap()
        .into_iter()
        .filter_map(|t| match t {
            Token::Number(n) => Some(n),
            _ => None,
        })
        .collect();
    assert_eq!(numerals, vec![b"7".to_vec(), b"3".to_vec(), b"2".to_vec(), b"1".to_vec(), b"5".to_vec()]);
}
