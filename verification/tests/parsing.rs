use awesome_calc::ast::{check_numeral, Ast, Op};
use awesome_calc::error;
use awesome_calc::lexer;
use awesome_calc::lexer::{Lexer, TokenKind};
use awesome_calc::parser::{name_of, Error, Parser};

fn parse(line: &str) -> Result<Ast, Error> {
    Parser::new(Lexer::new(line.to_string())).parse()
}

fn num(spelling: &str) -> Ast {
    Ast::Number(spelling.to_string())
}

fn unary(op: Op, rhs: Ast) -> Ast {
    Ast::UnaryExpr { op, rhs: Box::new(rhs) }
}

fn binary(lhs: Ast, op: Op, rhs: Ast) -> Ast {
    Ast::BinaryExpr { lhs: Box::new(lhs), op, rhs: Box::new(rhs) }
}

#[test]
fn rendering_adds_no_spaces() {
    assert_eq!(parse("1 + 2").unwrap().to_text(), "1+2");
}

#[test]
fn rendering_does_not_keep_grouping() {
    assert_eq!(parse("(2 + 3) * 4").unwrap().to_text(), "2+3*4");
    assert_eq!(parse("-((2 + 3) * 4)").unwrap().to_text(), "-2+3*4");
    assert_eq!(parse("10 / (5 - +3)").unwrap().to_text(), "10/5-+3");
}

#[test]
fn operators_as_text() {
    assert_eq!(Op::Add.to_text(), "+");
    assert_eq!(Op::Sub.to_text(), "-");
    assert_eq!(Op::Mul.to_text(), "*");
    assert_eq!(Op::Div.to_text(), "/");
}

#[test]
fn binary_operators_associate_to_the_left() {
    assert_eq!(
        parse("1 - 2 - 3"),
        Ok(binary(binary(num("1"), Op::Sub, num("2")), Op::Sub, num("3")))
    );
    assert_eq!(
        parse("8 / 4 / 2"),
        Ok(binary(binary(num("8"), Op::Div, num("4")), Op::Div, num("2")))
    );
}

#[test]
fn multiplication_binds_tighter_than_addition() {
    assert_eq!(
        parse("10 - 2 * 5"),
        Ok(binary(num("10"), Op::Sub, binary(num("2"), Op::Mul, num("5"))))
    );
    assert_eq!(
        parse("8 / 4 + 2"),
        Ok(binary(binary(num("8"), Op::Div, num("4")), Op::Add, num("2")))
    );
}

#[test]
fn a_sign_applies_to_one_primary() {
    assert_eq!(
        parse("-6 * 4"),
        Ok(binary(unary(Op::Sub, num("6")), Op::Mul, num("4")))
    );
    assert_eq!(
        parse("5 + -3"),
        Ok(binary(num("5"), Op::Add, unary(Op::Sub, num("3"))))
    );
    assert_eq!(parse("+42"), Ok(unary(Op::Add, num("42"))));
}

#[test]
fn parentheses_group() {
    assert_eq!(
        parse("(2 + 3) * 4"),
        Ok(binary(binary(num("2"), Op::Add, num("3")), Op::Mul, num("4")))
    );
    assert_eq!(
        parse("-(-3 + 5)"),
        Ok(unary(Op::Sub, binary(unary(Op::Sub, num("3")), Op::Add, num("5"))))
    );
    assert_eq!(parse("((7))"), Ok(num("7")));
}

#[test]
fn numbers_keep_their_spelling() {
    assert_eq!(parse("007.50"), Ok(num("007.50")));
    assert_eq!(parse("1."), Ok(num("1.")));
}

#[test]
fn malformed_numeral_is_an_error() {
    let err = parse("1..2").unwrap_err();
    assert_eq!(err, Error::InvalidNumber("1..2".to_string()));
    assert_eq!(err.message(), "invalid float literal");
    assert_eq!(parse("1.2.3"), Err(Error::InvalidNumber("1.2.3".to_string())));
    assert_eq!(parse("4 + 1.2.3"), Err(Error::InvalidNumber("1.2.3".to_string())));
}

#[test]
fn unbalanced_parentheses_name_what_was_expected_and_found() {
    let err = parse("(1 + 2").unwrap_err();
    assert_eq!(err, Error::Parse("Expected RightParen, but found Eof".to_string()));
    assert_eq!(err.message(), "Parsing error: Expected RightParen, but found Eof");
    assert_eq!(
        parse("(1 + 2 3"),
        Err(Error::Parse("Expected RightParen, but found Number".to_string()))
    );
    assert_eq!(
        parse("((1)"),
        Err(Error::Parse("Expected RightParen, but found Eof".to_string()))
    );
}

#[test]
fn double_sign_is_rejected() {
    assert_eq!(
        parse("--5"),
        Err(Error::Parse(
            "Expected number or parenthesised expression. Found: Minus".to_string()
        ))
    );
    assert_eq!(
        parse("+-5"),
        Err(Error::Parse(
            "Expected number or parenthesised expression. Found: Minus".to_string()
        ))
    );
    assert_eq!(
        parse("1 - -+5"),
        Err(Error::Parse(
            "Expected number or parenthesised expression. Found: Plus".to_string()
        ))
    );
}

#[test]
fn operator_where_a_primary_must_start() {
    assert_eq!(
        parse("* 3"),
        Err(Error::Parse(
            "Expected number or parenthesised expression. Found: Asterisk".to_string()
        ))
    );
    assert_eq!(
        parse("()"),
        Err(Error::Parse(
            "Expected number or parenthesised expression. Found: RightParen".to_string()
        ))
    );
}

#[test]
fn tokens_run_out_where_an_operand_must_start() {
    let err = parse("").unwrap_err();
    assert_eq!(err, Error::NoMoreTokens);
    assert_eq!(err.message(), "ran out of tokens while parsing");
    assert_eq!(parse("1 +"), Err(Error::NoMoreTokens));
    assert_eq!(parse("2 * ("), Err(Error::NoMoreTokens));
    assert_eq!(parse("-"), Err(Error::NoMoreTokens));
}

#[test]
fn trailing_tokens_are_left_unread() {
    assert_eq!(parse("1+2)"), Ok(binary(num("1"), Op::Add, num("2"))));
    assert_eq!(parse("1 2"), Ok(num("1")));
    assert_eq!(parse("3 (4)"), Ok(num("3")));
}

#[test]
fn invalid_character_aborts_the_parse() {
    let lexical = Error::Lexer(lexer::Error::InvalidCharacter('&'));
    assert_eq!(parse("5 & 3"), Err(lexical.clone()));
    assert_eq!(parse("5 + & 3"), Err(lexical.clone()));
    assert_eq!(parse("(5 & 3)"), Err(lexical.clone()));
    assert_eq!(parse("&"), Err(lexical.clone()));
    assert_eq!(parse("-&"), Err(lexical.clone()));
    assert_eq!(lexical.message(), "Invalid character: '&'");
    assert_eq!(
        parse("(4 $"),
        Err(Error::Lexer(lexer::Error::InvalidCharacter('$')))
    );
}

#[test]
fn invalid_character_counts_only_where_the_parser_comes_to_it() {
    assert_eq!(parse("1 2 &"), Ok(num("1")));
    assert_eq!(
        parse("--5 &"),
        Err(Error::Parse(
            "Expected number or parenthesised expression. Found: Minus".to_string()
        ))
    );
    assert_eq!(parse("1..2 &"), Err(Error::InvalidNumber("1..2".to_string())));
    assert_eq!(
        parse("(1 2 &"),
        Err(Error::Parse("Expected RightParen, but found Number".to_string()))
    );
}

#[test]
fn invalid_character_fails_every_further_parse() {
    let mut parser = Parser::new(Lexer::new("1 & 2".to_string()));
    let lexical = Error::Lexer(lexer::Error::InvalidCharacter('&'));
    assert_eq!(parser.parse(), Err(lexical.clone()));
    assert_eq!(parser.parse(), Err(lexical));
}

#[test]
fn parsing_again_goes_on_behind_the_current_token() {
    let mut parser = Parser::new(Lexer::new("1 2 + 3 4".to_string()));
    assert_eq!(parser.parse(), Ok(num("1")));
    assert_eq!(parser.parse(), Ok(unary(Op::Add, num("3"))));
    assert_eq!(parser.parse(), Err(Error::NoMoreTokens));
}

#[test]
fn parser_starts_where_the_lexer_stands() {
    let mut lexer = Lexer::new("9 * 2 + 1".to_string());
    assert!(lexer.lex().is_ok());
    assert!(lexer.lex().is_ok());
    assert_eq!(Parser::new(lexer).parse(), Ok(binary(num("2"), Op::Add, num("1"))));
}

#[test]
fn numerals_have_digits_and_at_most_one_point() {
    assert!(check_numeral("0"));
    assert!(check_numeral("12.5"));
    assert!(check_numeral("3."));
    assert!(!check_numeral(""));
    assert!(!check_numeral(".5"));
    assert!(!check_numeral("1..2"));
    assert!(!check_numeral("1.2.3"));
    assert!(!check_numeral("1e5"));
    assert!(!check_numeral("-1"));
}

#[test]
fn kinds_by_name() {
    assert_eq!(name_of(TokenKind::Asterisk), "Asterisk");
    assert_eq!(name_of(TokenKind::Eof), "Eof");
    assert_eq!(name_of(TokenKind::LeftParen), "LeftParen");
    assert_eq!(name_of(TokenKind::Minus), "Minus");
    assert_eq!(name_of(TokenKind::Number), "Number");
    assert_eq!(name_of(TokenKind::Plus), "Plus");
    assert_eq!(name_of(TokenKind::RightParen), "RightParen");
    assert_eq!(name_of(TokenKind::Slash), "Slash");
}

#[test]
fn stage_errors_are_wrapped_as_they_are() {
    let lexical = error::Error::from(lexer::Error::InvalidCharacter('&'));
    assert_eq!(lexical, error::Error::Lexer(lexer::Error::InvalidCharacter('&')));
    assert_eq!(lexical.message(), "Invalid character: '&'");
    let wrapped = error::Error::from(Error::Lexer(lexer::Error::InvalidCharacter('&')));
    assert_eq!(wrapped.message(), "Invalid character: '&'");
    let syntactic = error::Error::from(Error::NoMoreTokens);
    assert_eq!(syntactic, error::Error::Parser(Error::NoMoreTokens));
    assert_eq!(syntactic.message(), "ran out of tokens while parsing");
}
