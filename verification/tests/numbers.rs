use json_parser::lex::{lex, Token};
use json_parser::number::number_text;
use json_parser::{parse, Number, ParseError, Value};

fn written() -> Vec<&'static str> {
    vec![
        "0", "5", "27", "-37", "+5", "-0", "007", "5.", ".5", "-.5", "+.5e3", "1.5", "1e5", "1E5",
        "1e+5", "1e-5", "1.e5", ".1E-10", "12345678901234567890123456789", "1e400", "inf", "-inf",
        "+inf", "INF", "iNf", "infinity", "-Infinity", "INFINITY", "nan", "NaN", "-nan", "+NAN",
    ]
}

fn not_written() -> Vec<&'static str> {
    vec![
        "", "+", "-", ".", "-.", "e5", ".e5", "1e", "1e+", "1e-", "1ee5", "1e5.", "1.5.5", "1..5",
        "--1", "+-1", "1-", "1+1", "0x10", "1_000", " 1", "1 ", "1,5", "abc", "in", "infi",
        "infinit", "infinityy", "na", "nan1", "nane", "-", "١٢٣", "1f", "1.0f64", "é", "ınf",
        "\u{212A}", "1\u{0}",
    ]
}

#[test]
fn number_texts() {
    for text in written() {
        assert!(number_text(text), "{:?}", text);
        assert!(Number::new(text.to_string()).is_some(), "{:?}", text);
    }
    for text in not_written() {
        assert!(!number_text(text), "{:?}", text);
        assert!(Number::new(text.to_string()).is_none(), "{:?}", text);
    }
}

#[test]
fn number_texts_are_what_floats_are_read_from() {
    for text in written() {
        assert!(text.parse::<f64>().is_ok(), "{:?}", text);
    }
    for text in not_written() {
        assert!(text.parse::<f64>().is_err(), "{:?}", text);
    }
}

#[test]
fn number_keeps_its_text() {
    let number = Number::new("-37".to_string()).unwrap();
    assert_eq!("-37", number.as_str());
    assert_eq!(Ok(-37.0), number.as_str().parse::<f64>());
    assert!(number == Number::new("-37".to_string()).unwrap());
    assert!(number != Number::new("-37.0".to_string()).unwrap());
    assert!(number != Number::new("37".to_string()).unwrap());
}

#[test]
fn minus_thirty_seven() {
    let tokens = lex(" -37 ".to_string());
    assert_eq!(Ok(vec![Token::Number("-37".to_string())]), tokens);
    match parse(tokens.unwrap()) {
        Ok(Value::Number(number)) => {
            assert_eq!("-37", number.as_str());
            assert_eq!(Ok(-37.0), number.as_str().parse::<f64>());
        }
        other => panic!("no number: {:?}", other),
    }
}

#[test]
fn number_token_with_fraction_and_exponent() {
    match parse(vec![Token::Number("-1.25e2".to_string())]) {
        Ok(Value::Number(number)) => {
            assert_eq!(Ok(-125.0), number.as_str().parse::<f64>())
        }
        other => panic!("no number: {:?}", other),
    }
}

#[test]
fn invalid_number() {
    assert_eq!(
        Err(ParseError::InvalidNumber),
        parse(vec![Token::Number("abc".to_string())])
    );
    assert_eq!(
        Err(ParseError::InvalidNumber),
        parse(vec![Token::Number("".to_string())])
    );
    assert_eq!(
        Err(ParseError::InvalidNumber),
        parse(lex("-".to_string()).unwrap())
    );
    assert_eq!(
        Err(ParseError::InvalidNumber),
        parse(lex("[1, -, 3]".to_string()).unwrap())
    );
    assert_eq!(
        Err(ParseError::InvalidNumber),
        parse(lex("{\"a\": [-]}".to_string()).unwrap())
    );
}
