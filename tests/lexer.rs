use calculator::lexer::{Lexer, LexerError, Operator, Token};
use std::cmp::Ordering;

#[derive(Debug)]
enum Want {
    Num(f32),
    Tok(Token),
}

fn check(actual: Token, want: &Want) {
    match (&actual, want) {
        (Token::Number(bytes), Want::Num(x)) => {
            let v = std::str::from_utf8(bytes).unwrap().parse::<f32>().unwrap();
            assert_eq!(v, *x);
        }
        (a, Want::Tok(t)) => assert_eq!(a, t),
        _ => panic!("got {:?}, wanted {:?}", actual, want),
    }
}

#[test]
pub fn test_operator() {
    let input = "1+2-3*4/5";
    let expected_token_list = vec![
        Want::Num(1.),
        Want::Tok(Token::Operator(Operator::ADD)),
        Want::Num(2.),
        Want::Tok(Token::Operator(Operator::SUB)),
        Want::Num(3.),
        Want::Tok(Token::Operator(Operator::MULT)),
        Want::Num(4.),
        Want::Tok(Token::Operator(Operator::DIV)),
        Want::Num(5.),
    ];
    let mut lexer = Lexer::from(input);
    for expected_token in expected_token_list {
        println!("{:?}", expected_token);
        let next_token = lexer.get_token();
        check(next_token.unwrap(), &expected_token);
    }
}

#[test]
pub fn test_float() {
    let input = "1.302+2.456";
    let expected_token_list = vec![
        Want::Num(1.302),
        Want::Tok(Token::Operator(Operator::ADD)),
        Want::Num(2.456),
    ];
    let mut lexer = Lexer::from(input);
    for expected_token in expected_token_list {
        println!("{:?}", expected_token);
        let next_token = lexer.get_token();
        check(next_token.unwrap(), &expected_token);
    }
}

#[test]
fn whitespace_is_skipped_and_end_repeats() {
    let mut lexer = Lexer::from("  12 \t(\n)  ");
    assert_eq!(lexer.get_token().unwrap(), Token::Number(b"12".to_vec()));
    assert_eq!(lexer.get_token().unwrap(), Token::LPAREN);
    assert_eq!(lexer.get_token().unwrap(), Token::RPAREN);
    assert_eq!(lexer.get_token().unwrap(), Token::EOF);
    assert_eq!(lexer.get_token().unwrap(), Token::EOF);
}

#[test]
fn numeral_takes_every_digit_and_dot() {
    let mut lexer = Lexer::from("1.2.3+");
    assert_eq!(lexer.get_token().unwrap(), Token::Number(b"1.2.3".to_vec()));
    assert_eq!(lexer.get_token().unwrap(), Token::Operator(Operator::ADD));
}

#[test]
fn bad_character_is_reported_and_skipped() {
    let mut lexer = Lexer::from(".5");
    assert_eq!(lexer.get_token(), Err(LexerError::BadToken('.')));
    assert_eq!(lexer.get_token().unwrap(), Token::Number(b"5".to_vec()));
    let mut lexer = Lexer::from("x");
    assert_eq!(lexer.get_token(), Err(LexerError::BadToken('x')));
    assert_eq!(lexer.get_token().unwrap(), Token::EOF);
}

#[test]
fn nul_inside_text_is_a_bad_character() {
    let mut lexer = Lexer::from("\u{0}1");
    assert_eq!(lexer.get_token(), Err(LexerError::BadToken('\0')));
    assert_eq!(lexer.get_token().unwrap(), Token::Number(b"1".to_vec()));
    assert_eq!(lexer.get_token().unwrap(), Token::EOF);
}

#[test]
fn non_ascii_bad_character_is_reported_whole() {
    let mut lexer = Lexer::from("\u{e9}+1");
    assert_eq!(lexer.get_token(), Err(LexerError::BadToken('\u{e9}')));
    assert_eq!(lexer.get_token().unwrap(), Token::Operator(Operator::ADD));
    assert_eq!(lexer.get_token().unwrap(), Token::Number(b"1".to_vec()));
}

#[test]
fn read_moves_one_character() {
    let mut lexer = Lexer::from("\u{e9}-");
    lexer.read();
    assert_eq!(lexer.get_token().unwrap(), Token::Operator(Operator::SUB));
    lexer.read();
    assert_eq!(lexer.get_token().unwrap(), Token::EOF);
}

#[test]
fn precedence_order_between_tiers() {

    assert_eq!(Operator::ADD.partial_cmp(&Operator::MULT), Some(Ordering::Less));
    assert_eq!(Operator::SUB.partial_cmp(&Operator::DIV), Some(Ordering::Less));
    assert_eq!(Operator::DIV.partial_cmp(&Operator::ADD), Some(Ordering::Greater));
    assert_eq!(Operator::MULT.partial_cmp(&Operator::SUB), Some(Ordering::Greater));
    assert_eq!(Operator::ADD.partial_cmp(&Operator::SUB), Some(Ordering::Equal));
    assert_eq!(Operator::MULT.partial_cmp(&Operator::DIV), Some(Ordering::Equal));
    assert!(Operator::MULT >= Operator::DIV);
    assert!(!(Operator::ADD >= Operator::MULT));
}
