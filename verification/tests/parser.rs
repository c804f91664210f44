use json_parser::lex::Token;
use json_parser::{parse, Number, Object, ParseError, Value};

fn string_token(s: &str) -> Token {
    Token::String(s.to_string())
}

fn number_token(s: &str) -> Token {
    Token::Number(s.to_string())
}

fn number_value(s: &str) -> Value {
    Value::Number(Number::new(s.to_string()).unwrap())
}

fn float(v: &Value) -> f64 {
    match v {
        Value::Number(number) => number.as_str().parse::<f64>().unwrap(),
        other => panic!("no number: {:?}", other),
    }
}

#[test]
fn booleans() {
    assert_eq!(Ok(Value::Boolean(true)), parse(vec![Token::Boolean(true)]))
}

#[test]
fn lib_string() {
    assert_eq!(
        Ok(Value::String("foo bar".to_string())),
        parse(vec![string_token("foo bar")])
    )
}

#[test]
fn array() {
    assert_eq!(
        Ok(Value::Array(vec![Value::Boolean(true), Value::Boolean(false)])),
        parse(vec![
            Token::LeftBracket,
            Token::Boolean(true),
            Token::Comma,
            Token::Boolean(false),
            Token::RightBracket
        ])
    );

    assert_eq!(
        Ok(Value::Array(vec![
            Value::Boolean(true),
            Value::Object(Object::new()),
            Value::Boolean(false)
        ])),
        parse(vec![
            Token::LeftBracket,
            Token::Boolean(true),
            Token::Comma,
            Token::LeftBrace,
            Token::RightBrace,
            Token::Comma,
            Token::Boolean(false),
            Token::RightBracket
        ])
    );

    let numbers = parse(vec![
        Token::LeftBracket,
        number_token("5"),
        Token::Comma,
        number_token("27"),
        Token::Comma,
        Token::Null,
        Token::RightBracket,
    ]);
    assert_eq!(
        Ok(Value::Array(vec![number_value("5"), number_value("27"), Value::Null])),
        numbers
    );
    match numbers {
        Ok(Value::Array(items)) => {
            assert_eq!(5., float(&items[0]));
            assert_eq!(27., float(&items[1]));
        }
        other => panic!("no array: {:?}", other),
    }
}

#[test]
fn array_leading_comma() {
    assert_eq!(
        Err(ParseError::MisplacedComma),
        parse(vec![
            Token::LeftBracket,
            Token::Comma,
            Token::Boolean(false),
            Token::RightBracket
        ])
    );
}

#[test]
fn array_trailing_comma() {
    assert_eq!(
        Err(ParseError::MisplacedComma),
        parse(vec![
            Token::LeftBracket,
            Token::Boolean(false),
            Token::Comma,
            Token::RightBracket
        ])
    );
}

#[test]
fn array_duplicate_comma() {
    assert_eq!(
        Err(ParseError::MisplacedComma),
        parse(vec![
            Token::LeftBracket,
            Token::Boolean(true),
            Token::Comma,
            Token::Comma,
            Token::Boolean(false),
            Token::RightBracket
        ])
    );
}

#[test]
fn array_missing_comma() {
    assert_eq!(
        Err(ParseError::MisplacedComma),
        parse(vec![
            Token::LeftBracket,
            Token::Boolean(true),
            Token::Boolean(false),
            Token::RightBracket
        ])
    );
}

#[test]
fn object() {
    let empty_obj = parse(vec![Token::LeftBrace, Token::RightBrace]);
    assert_eq!(empty_obj, Ok(Value::Object(Object::new())));

    let singleton = || {
        let mut singleton_map = Object::new();
        singleton_map.insert("foo".to_string(), Value::String("bar".to_string()));
        Value::Object(singleton_map)
    };
    assert_eq!(
        Ok(singleton()),
        // {"foo": "bar"}
        parse(vec![
            Token::LeftBrace,
            string_token("foo"),
            Token::Colon,
            string_token("bar"),
            Token::RightBrace
        ])
    );

    let mut doubleton_map = Object::new();
    doubleton_map.insert("foo".to_string(), Value::String("bar".to_string()));
    doubleton_map.insert("baz".to_string(), Value::Boolean(false));
    assert_eq!(
        Ok(Value::Object(doubleton_map)),
        // {"foo": "bar", "baz": false}
        parse(vec![
            Token::LeftBrace,
            string_token("foo"),
            Token::Colon,
            string_token("bar"),
            Token::Comma,
            string_token("baz"),
            Token::Colon,
            Token::Boolean(false),
            Token::RightBrace
        ])
    );

    let mut nested_map = Object::new();
    nested_map.insert("outer".to_string(), Value::Object(Object::new()));
    assert_eq!(
        Ok(Value::Object(nested_map)),
        parse(vec![
            Token::LeftBrace,
            string_token("outer"),
            Token::Colon,
            Token::LeftBrace,
            Token::RightBrace,
            Token::RightBrace
        ])
    );

    let mut nested_singleton_map = Object::new();
    nested_singleton_map.insert("outer".to_string(), singleton());
    assert_eq!(
        Ok(Value::Object(nested_singleton_map)),
        parse(vec![
            Token::LeftBrace,
            string_token("outer"),
            Token::Colon,
            Token::LeftBrace,
            string_token("foo"),
            Token::Colon,
            string_token("bar"),
            Token::RightBrace,
            Token::RightBrace
        ])
    );
}

#[test]
fn missing_comma() {
    assert_eq!(
        Err(ParseError::MisplacedComma),
        parse(vec![
            Token::LeftBrace,
            string_token("foo"),
            Token::Colon,
            string_token("bar"),
            string_token("baz"),
            Token::Colon,
            Token::Boolean(false),
            Token::RightBrace
        ])
    );
}

#[test]
fn trailing_comma_on_doubleton() {
    assert_eq!(
        Err(ParseError::MisplacedComma),
        parse(vec![
            Token::LeftBrace,
            string_token("foo"),
            Token::Colon,
            string_token("bar"),
            Token::Comma,
            string_token("baz"),
            Token::Colon,
            Token::Boolean(false),
            Token::Comma,
            Token::RightBrace
        ])
    );
}

#[test]
fn leading_comma_on_doubleton() {
    assert_eq!(
        Err(ParseError::MisplacedComma),
        parse(vec![
            Token::LeftBrace,
            Token::Comma,
            string_token("foo"),
            Token::Colon,
            string_token("bar"),
            Token::Comma,
            string_token("baz"),
            Token::Colon,
            Token::Boolean(false),
            Token::RightBrace
        ])
    );
}

#[test]
fn doubled_comma_on_doubleton() {
    assert_eq!(
        Err(ParseError::MisplacedComma),
        parse(vec![
            Token::LeftBrace,
            string_token("foo"),
            Token::Colon,
            string_token("bar"),
            Token::Comma,
            Token::Comma,
            string_token("baz"),
            Token::Colon,
            Token::Boolean(false),
            Token::RightBrace
        ])
    );
}

#[test]
fn object_with_leading_comma() {
    assert_eq!(
        Err(ParseError::MisplacedComma),
        parse(vec![
            Token::LeftBrace,
            Token::Comma,
            string_token("foo"),
            Token::Colon,
            string_token("bar"),
            Token::RightBrace
        ])
    );
}

#[test]
fn object_with_trailing_comma() {
    assert_eq!(
        Err(ParseError::MisplacedComma),
        parse(vec![
            Token::LeftBrace,
            string_token("foo"),
            Token::Colon,
            string_token("bar"),
            Token::Comma,
            Token::RightBrace
        ])
    );
}

fn read(s: &str) -> Result<Value, ParseError> {
    parse(json_parser::lex::lex(s.to_string()).unwrap())
}

#[test]
fn keyword_in_whitespace_is_its_value() {
    assert_eq!(Ok(Value::Boolean(true)), read("true"));
    assert_eq!(Ok(Value::Boolean(true)), read("  true "));
    assert_eq!(Ok(Value::Boolean(false)), read("\n\tfalse\r\n"));
    assert_eq!(Ok(Value::Null), read(" \t\r\n null \t\r\n "));
}

#[test]
fn array_keeps_the_order_of_its_items() {
    assert_eq!(
        Ok(Value::Array(vec![
            Value::String("true".to_string()),
            Value::String("false".to_string())
        ])),
        read("[\"true\",\"false\"]")
    );
    assert_eq!(
        Ok(Value::Array(vec![
            number_value("3"),
            number_value("1"),
            number_value("2"),
            number_value("1"),
            Value::Null,
            Value::Array(vec![]),
            Value::Null
        ])),
        read("[3, 1, 2, 1, null, [], null]")
    );
    assert_eq!(Ok(Value::Array(vec![])), read("[]"));
}

#[test]
fn no_tokens_no_value() {
    assert_eq!(Err(ParseError::UnbalancedStructure), parse(vec![]));
}

#[test]
fn unbalanced_structure() {
    assert_eq!(Err(ParseError::UnbalancedStructure), read("["));
    assert_eq!(Err(ParseError::UnbalancedStructure), read("{"));
    assert_eq!(Err(ParseError::UnbalancedStructure), read("[1"));
    assert_eq!(Err(ParseError::UnbalancedStructure), read("[1,"));
    assert_eq!(Err(ParseError::UnbalancedStructure), read("{\"a\""));
    assert_eq!(Err(ParseError::UnbalancedStructure), read("{\"a\":"));
    assert_eq!(Err(ParseError::UnbalancedStructure), read("{\"a\":1"));
    assert_eq!(Err(ParseError::UnbalancedStructure), read("{\"a\":1,"));
    assert_eq!(Err(ParseError::UnbalancedStructure), read("{\"a\" 1}"));
    assert_eq!(Err(ParseError::UnbalancedStructure), read("{\"a\", 1}"));
    assert_eq!(Err(ParseError::UnbalancedStructure), read("{\"a\"}"));
    assert_eq!(Err(ParseError::UnbalancedStructure), read("[[1, 2]"));
}

#[test]
fn unexpected_token() {
    assert_eq!(Err(ParseError::UnexpectedToken), read("]"));
    assert_eq!(Err(ParseError::UnexpectedToken), read("}"));
    assert_eq!(Err(ParseError::UnexpectedToken), read(","));
    assert_eq!(Err(ParseError::UnexpectedToken), read(":"));
    assert_eq!(Err(ParseError::UnexpectedToken), read("[}"));
    assert_eq!(Err(ParseError::UnexpectedToken), read("[:"));
    assert_eq!(Err(ParseError::UnexpectedToken), read("[1, }"));
    assert_eq!(Err(ParseError::UnexpectedToken), read("{\"a\": }"));
    assert_eq!(Err(ParseError::UnexpectedToken), read("{\"a\": ,"));
    assert_eq!(Err(ParseError::UnexpectedToken), read("{\"a\": ]"));
    assert_eq!(Err(ParseError::UnexpectedToken), read("{\"a\": :"));
}

#[test]
fn non_string_key() {
    assert_eq!(Err(ParseError::NonStringKey), read("{1: 2}"));
    assert_eq!(Err(ParseError::NonStringKey), read("{true: 2}"));
    assert_eq!(Err(ParseError::NonStringKey), read("{null}"));
    assert_eq!(Err(ParseError::NonStringKey), read("{[]: 2}"));
    assert_eq!(Err(ParseError::NonStringKey), read("{{}: 2}"));
    assert_eq!(Err(ParseError::NonStringKey), read("{]"));
    assert_eq!(Err(ParseError::NonStringKey), read("{:"));
    assert_eq!(Err(ParseError::NonStringKey), read("{\"a\": 1, 2: 3}"));
    assert_eq!(Err(ParseError::NonStringKey), read("{\"a\": 1, ]"));
}

#[test]
fn misplaced_comma_comes_before_other_faults() {
    assert_eq!(Err(ParseError::MisplacedComma), read("[1 }"));
    assert_eq!(Err(ParseError::MisplacedComma), read("[1 :"));
    assert_eq!(Err(ParseError::MisplacedComma), read("[1 -"));
    assert_eq!(Err(ParseError::MisplacedComma), read("{\"a\": 1 2: 3}"));
    assert_eq!(Err(ParseError::MisplacedComma), read("{\"a\": 1 ]"));
    assert_eq!(Err(ParseError::MisplacedComma), read("{\"a\": 1 : 2}"));
    assert_eq!(Err(ParseError::MisplacedComma), read("[,"));
    assert_eq!(Err(ParseError::MisplacedComma), read("{,"));
    assert_eq!(Err(ParseError::MisplacedComma), read("[1,,"));
    assert_eq!(Err(ParseError::MisplacedComma), read("{\"a\": 1,,"));
}

#[test]
fn first_fault_from_the_left_counts() {
    assert_eq!(Err(ParseError::InvalidNumber), read("[-, }"));
    assert_eq!(Err(ParseError::NonStringKey), read("{1 2 ,, -"));
    assert_eq!(Err(ParseError::MisplacedComma), read("[[1,], -, }"));
    assert_eq!(Err(ParseError::UnexpectedToken), read("[1, [2, :], -]"));
}

#[test]
fn tokens_behind_the_value_are_not_read() {
    assert_eq!(Ok(Value::Boolean(true)), read("true false"));
    assert_eq!(Ok(Value::Null), read("null ]"));
    assert_eq!(Ok(Value::Array(vec![])), read("[] , -"));
    assert_eq!(Ok(Value::Object(Object::new())), read("{} }"));
}

#[test]
fn value_tells_where_it_ends() {
    let tokens = json_parser::lex::lex("[true, {\"a\": [null]}, 7] false".to_string()).unwrap();
    assert_eq!(14, tokens.len());
    assert_eq!(
        Ok((Value::Boolean(true), 2)),
        json_parser::value(&tokens, 1)
    );
    assert_eq!(
        Ok((Value::Array(vec![Value::Null]), 9)),
        json_parser::value(&tokens, 6)
    );
    match json_parser::value(&tokens, 3) {
        Ok((Value::Object(members), end)) => {
            assert_eq!(10, end);
            assert_eq!(1, members.len());
            assert_eq!(Some(&Value::Array(vec![Value::Null])), members.get("a"));
        }
        other => panic!("no object: {:?}", other),
    }
    match json_parser::value(&tokens, 0) {
        Ok((Value::Array(items), end)) => {
            assert_eq!(13, end);
            assert_eq!(3, items.len());
            assert!(items[2] == number_value("7"));
        }
        other => panic!("no array: {:?}", other),
    }
    assert_eq!(
        Ok((Value::Boolean(false), 14)),
        json_parser::value(&tokens, 13)
    );
    assert_eq!(
        Err(ParseError::UnbalancedStructure),
        json_parser::value(&tokens, 14)
    );
    assert_eq!(
        Err(ParseError::UnbalancedStructure),
        json_parser::value(&tokens, 15)
    );
    assert_eq!(
        Err(ParseError::UnexpectedToken),
        json_parser::value(&tokens, 2)
    );
}
