use awesome_calc::lexer::{char_is_digit, Error, Lexer, Token, TokenKind};

fn token(kind: TokenKind, spelling: &str) -> Token {
    Token { kind, spelling: spelling.to_string() }
}

fn all_tokens(line: &str) -> Result<Vec<Token>, Error> {
    let mut lexer = Lexer::new(line.to_string());
    let mut out = Vec::new();
    while let Some(tok) = lexer.next_token()? {
        out.push(tok);
    }
    Ok(out)
}

#[test]
fn lexes_every_kind_of_token() {
    let mut lexer = Lexer::new("12.5+(3)-4*5/6".to_string());
    let expected = vec![
        token(TokenKind::Number, "12.5"),
        token(TokenKind::Plus, "+"),
        token(TokenKind::LeftParen, "("),
        token(TokenKind::Number, "3"),
        token(TokenKind::RightParen, ")"),
        token(TokenKind::Minus, "-"),
        token(TokenKind::Number, "4"),
        token(TokenKind::Asterisk, "*"),
        token(TokenKind::Number, "5"),
        token(TokenKind::Slash, "/"),
        token(TokenKind::Number, "6"),
        token(TokenKind::Eof, ""),
    ];
    for want in expected {
        assert_eq!(lexer.lex(), Ok(want));
    }
}

#[test]
fn end_of_input_is_given_again_and_again() {
    let mut lexer = Lexer::new("7".to_string());
    assert_eq!(lexer.lex(), Ok(token(TokenKind::Number, "7")));
    assert_eq!(lexer.lex(), Ok(token(TokenKind::Eof, "")));
    assert_eq!(lexer.lex(), Ok(token(TokenKind::Eof, "")));
    assert_eq!(lexer.lex(), Ok(token(TokenKind::Eof, "")));
}

#[test]
fn empty_line_is_end_of_input() {
    let mut lexer = Lexer::new(String::new());
    assert_eq!(lexer.lex(), Ok(token(TokenKind::Eof, "")));
    let mut blank = Lexer::new("  \t ".to_string());
    assert_eq!(blank.lex(), Ok(token(TokenKind::Eof, "")));
}

#[test]
fn every_ascii_whitespace_is_skipped() {
    let mut lexer = Lexer::new(" \t\n\x0C\r7 \t+".to_string());
    assert_eq!(lexer.lex(), Ok(token(TokenKind::Number, "7")));
    assert_eq!(lexer.lex(), Ok(token(TokenKind::Plus, "+")));
    assert_eq!(lexer.lex(), Ok(token(TokenKind::Eof, "")));
}

#[test]
fn invalid_character_is_reported_with_the_character() {
    let mut lexer = Lexer::new("5 & 3".to_string());
    assert_eq!(lexer.lex(), Ok(token(TokenKind::Number, "5")));
    assert_eq!(lexer.lex(), Err(Error::InvalidCharacter('&')));
}

#[test]
fn lexer_stays_on_an_invalid_character() {
    let mut lexer = Lexer::new("5 & 3".to_string());
    assert!(lexer.lex().is_ok());
    assert_eq!(lexer.lex(), Err(Error::InvalidCharacter('&')));
    assert_eq!(lexer.lex(), Err(Error::InvalidCharacter('&')));
}

#[test]
fn several_points_make_one_number_token() {
    let mut lexer = Lexer::new("1..2 3.".to_string());
    assert_eq!(lexer.lex(), Ok(token(TokenKind::Number, "1..2")));
    assert_eq!(lexer.lex(), Ok(token(TokenKind::Number, "3.")));
    assert_eq!(lexer.lex(), Ok(token(TokenKind::Eof, "")));
}

#[test]
fn a_point_begins_no_token() {
    let mut lexer = Lexer::new(".5".to_string());
    assert_eq!(lexer.lex(), Err(Error::InvalidCharacter('.')));
}

#[test]
fn only_ascii_digits_begin_a_number() {
    let mut lexer = Lexer::new("\u{0663}".to_string());
    assert_eq!(lexer.lex(), Err(Error::InvalidCharacter('\u{0663}')));
    let mut letters = Lexer::new("2x".to_string());
    assert_eq!(letters.lex(), Ok(token(TokenKind::Number, "2")));
    assert_eq!(letters.lex(), Err(Error::InvalidCharacter('x')));
}

#[test]
fn characters_beyond_ascii_are_counted_one_by_one() {
    let mut lexer = Lexer::new("1 \u{00e9} 2".to_string());
    assert_eq!(lexer.lex(), Ok(token(TokenKind::Number, "1")));
    assert_eq!(lexer.lex(), Err(Error::InvalidCharacter('\u{00e9}')));
}

#[test]
fn token_sequence_ends_at_end_of_input() {
    let toks = all_tokens("1 + 2");
    assert_eq!(
        toks,
        Ok(vec![
            token(TokenKind::Number, "1"),
            token(TokenKind::Plus, "+"),
            token(TokenKind::Number, "2"),
        ])
    );
    let mut lexer = Lexer::new("7".to_string());
    assert_eq!(lexer.next_token(), Ok(Some(token(TokenKind::Number, "7"))));
    assert_eq!(lexer.next_token(), Ok(None));
    assert_eq!(lexer.next_token(), Ok(None));
}

#[test]
fn token_sequence_fails_at_an_invalid_character() {
    assert_eq!(all_tokens("5 & 3"), Err(Error::InvalidCharacter('&')));
    let mut lexer = Lexer::new("5 & 3".to_string());
    assert_eq!(lexer.next_token(), Ok(Some(token(TokenKind::Number, "5"))));
    assert_eq!(lexer.next_token(), Err(Error::InvalidCharacter('&')));
    assert_eq!(lexer.next_token(), Err(Error::InvalidCharacter('&')));
}

#[test]
fn lexer_errors_in_words() {
    assert_eq!(Error::InvalidCharacter('&').message(), "Invalid character: '&'");
    assert_eq!(Error::InvalidCharacter('\u{00e9}').message(), "Invalid character: '\u{00e9}'");
    assert_eq!(Error::NoCharactersToEat.message(), "ran out of characters while lexing");
}

#[test]
fn digits_are_the_ten_ascii_digits() {
    for c in "0123456789".chars() {
        assert!(char_is_digit(c));
    }
    for c in "/:. a\u{0663}".chars() {
        assert!(!char_is_digit(c));
    }
}

#[test]
fn arithmetic_text_is_lexed_to_its_end() {
    let mut lexer = Lexer::new("1.5+(2*3)/ 4 -7. \t".to_string());
    let mut count = 0;
    loop {
        let tok = lexer.lex().unwrap();
        if tok.kind == TokenKind::Eof {
            break;
        }
        count += 1;
    }
    assert_eq!(count, 11);
}

#[test]
fn spellings_joined_are_the_text_without_whitespace() {
    let toks = all_tokens(" 1.5 +( 2 )\t* 30 /4 - 7.").unwrap();
    let joined: String = toks.iter().map(|tok| tok.spelling.as_str()).collect();
    assert_eq!(joined, "1.5+(2)*30/4-7.");
}
