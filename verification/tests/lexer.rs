use json_parser::lex::Token::{
    Boolean, Colon, Comma, LeftBrace, LeftBracket, Null, Number, RightBrace, RightBracket,
};
use json_parser::lex::{lex, LexError, Token};

fn number_token(s: &str) -> Token {
    Number(s.to_string())
}

fn string_token(s: &str) -> Token {
    Token::String(s.to_string())
}

#[test]
fn number() {
    assert_eq!(
        Ok(vec![Number("-37".to_string())]),
        lex("  -37 ".to_string())
    );
}

#[test]
fn bool() {
    assert_eq!(Ok(vec![Boolean(false)]), lex("\n\tfalse ".to_string()));
}

#[test]
fn bad_literal() {
    assert!(lex("fxx".to_string()).is_err());
    assert!(lex("x12".to_string()).is_err());
}

#[test]
fn symbols() {
    assert_eq!(Ok(vec![Colon]), lex(" : ".to_string()));
    assert!(lex(">".to_string()).is_err());
}

#[test]
fn lex_string() {
    assert_eq!(
        Ok(vec![Token::String("foo bar".to_string())]),
        lex(" \"foo bar\"  ".to_string())
    );
    assert!(lex("\"foo \\\" bar".to_string()).is_err());
}

#[test]
fn combo() {
    assert_eq!(
        Ok(vec![
            LeftBrace,
            Token::String("foo".to_string()),
            Colon,
            Null,
            RightBrace
        ]),
        lex("{  \"foo\": null} ".to_string())
    );
}

#[test]
fn foo_bar() {
    assert_eq!(
        Ok(vec![string_token("foo bar")]),
        lex("\"foo bar\"".to_string())
    );
    assert_eq!(
        Err(LexError::UnterminatedString),
        lex("\"foo \\\" bar".to_string())
    );
}

#[test]
fn empty_text_has_no_tokens() {
    assert_eq!(Ok(vec![]), lex("".to_string()));
    assert_eq!(Ok(vec![]), lex(" \t\n\r ".to_string()));
}

#[test]
fn every_symbol_is_one_token() {
    assert_eq!(
        Ok(vec![
            Colon,
            Comma,
            LeftBracket,
            RightBracket,
            LeftBrace,
            RightBrace
        ]),
        lex(":,[]{}".to_string())
    );
}

#[test]
fn each_whitespace_separates() {
    assert_eq!(
        Ok(vec![
            Boolean(true),
            Boolean(false),
            Null,
            number_token("1"),
            number_token("2")
        ]),
        lex("true false\tnull\n1\r2".to_string())
    );
}

#[test]
fn keywords_need_no_separator() {
    assert_eq!(
        Ok(vec![Boolean(true), Boolean(false), Null, Null]),
        lex("truefalsenullnull".to_string())
    );
}

#[test]
fn number_runs_as_far_as_digits_follow() {
    assert_eq!(Ok(vec![number_token("0123456789")]), lex("0123456789".to_string()));
    assert_eq!(
        Ok(vec![
            LeftBracket,
            number_token("1"),
            Comma,
            number_token("-2"),
            RightBracket
        ]),
        lex("[1,-2]".to_string())
    );
    assert_eq!(
        Ok(vec![number_token("1"), number_token("-2"), number_token("-")]),
        lex("1-2-".to_string())
    );
    assert_eq!(
        Ok(vec![number_token("-"), number_token("-"), number_token("7")]),
        lex("-- 7".to_string())
    );
}

#[test]
fn number_ends_before_point_and_exponent() {
    assert_eq!(
        Err(LexError::UnexpectedCharacter('.', 1)),
        lex("1.5".to_string())
    );
    assert_eq!(
        Err(LexError::UnexpectedCharacter('e', 1)),
        lex("1e5".to_string())
    );
    assert_eq!(
        Err(LexError::UnexpectedCharacter('+', 0)),
        lex("+1".to_string())
    );
}

#[test]
fn string_keeps_what_follows_a_backslash() {
    assert_eq!(
        Ok(vec![string_token("a\"b")]),
        lex("\"a\\\"b\"".to_string())
    );
    assert_eq!(
        Ok(vec![string_token("a\\b")]),
        lex("\"a\\\\b\"".to_string())
    );
    assert_eq!(Ok(vec![string_token("anb")]), lex("\"a\\nb\"".to_string()));
    assert_eq!(
        Ok(vec![string_token("u00e9")]),
        lex("\"\\u00e9\"".to_string())
    );
}

#[test]
fn string_takes_any_character() {
    assert_eq!(Ok(vec![string_token("")]), lex("\"\"".to_string()));
    assert_eq!(
        Ok(vec![string_token(" {[:,]} true 12 \n\t é ✓ ")]),
        lex("\" {[:,]} true 12 \n\t é ✓ \"".to_string())
    );
    assert_eq!(
        Ok(vec![string_token("a"), string_token("b")]),
        lex("\"a\"\"b\"".to_string())
    );
}

#[test]
fn unterminated_string() {
    assert_eq!(
        Err(LexError::UnterminatedString),
        lex("\"foo \\\" bar".to_string())
    );
    assert_eq!(Err(LexError::UnterminatedString), lex("\"".to_string()));
    assert_eq!(Err(LexError::UnterminatedString), lex("\"abc".to_string()));
    assert_eq!(Err(LexError::UnterminatedString), lex("\"abc\\".to_string()));
    assert_eq!(
        Err(LexError::UnterminatedString),
        lex("\"abc\\\"".to_string())
    );
    assert_eq!(
        Err(LexError::UnterminatedString),
        lex("[1, \"".to_string())
    );
}

#[test]
fn invalid_literal() {
    assert_eq!(Err(LexError::InvalidLiteral), lex("fxx".to_string()));
    assert_eq!(Err(LexError::InvalidLiteral), lex("t".to_string()));
    assert_eq!(Err(LexError::InvalidLiteral), lex("tru".to_string()));
    assert_eq!(Err(LexError::InvalidLiteral), lex("tru e".to_string()));
    assert_eq!(Err(LexError::InvalidLiteral), lex("tRue".to_string()));
    assert_eq!(Err(LexError::InvalidLiteral), lex("nul".to_string()));
    assert_eq!(Err(LexError::InvalidLiteral), lex("nulL".to_string()));
    assert_eq!(Err(LexError::InvalidLiteral), lex("fals".to_string()));
    assert_eq!(Err(LexError::InvalidLiteral), lex("[true, falze]".to_string()));
}

#[test]
fn unexpected_character_carries_its_index() {
    assert_eq!(
        Err(LexError::UnexpectedCharacter('x', 0)),
        lex("x12".to_string())
    );
    assert_eq!(
        Err(LexError::UnexpectedCharacter('>', 0)),
        lex(">".to_string())
    );
    assert_eq!(
        Err(LexError::UnexpectedCharacter('T', 2)),
        lex("  True".to_string())
    );
    assert_eq!(
        Err(LexError::UnexpectedCharacter('x', 4)),
        lex("truex".to_string())
    );
    assert_eq!(
        Err(LexError::UnexpectedCharacter('é', 8)),
        lex("[\"ü✓\",1,é".to_string())
    );
}

#[test]
fn first_error_from_the_left_counts() {
    assert_eq!(
        Err(LexError::UnexpectedCharacter('?', 0)),
        lex("? \"open".to_string())
    );
    assert_eq!(Err(LexError::InvalidLiteral), lex("nope ? \"open".to_string()));
}
