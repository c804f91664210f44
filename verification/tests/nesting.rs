use json_parser::lex::lex;
use json_parser::{parse, Object, ParseError, Value};

fn nested_arrays(depth: usize) -> Value {
    let mut value = Value::Array(vec![]);
    for _ in 1..depth {
        value = Value::Array(vec![value]);
    }
    value
}

fn nested_objects(depth: usize) -> Value {
    let mut value = Value::Null;
    for _ in 0..depth {
        let mut members = Object::new();
        members.insert("k".to_string(), value);
        value = Value::Object(members);
    }
    value
}

#[test]
fn outer_object_holds_empty_object() {
    let tokens = lex("{\"outer\": {}}".to_string()).unwrap();
    let mut outer = Object::new();
    outer.insert("outer".to_string(), Value::Object(Object::new()));
    assert_eq!(Ok(Value::Object(outer)), parse(tokens));
}

#[test]
fn arrays_and_objects_in_each_other() {
    let tokens = lex("[{\"a\": [1, {\"b\": []}]}, [[]], {}]".to_string()).unwrap();
    match parse(tokens) {
        Ok(Value::Array(items)) => {
            assert_eq!(3, items.len());
            match &items[0] {
                Value::Object(members) => match members.get("a") {
                    Some(Value::Array(inner)) => {
                        assert_eq!(2, inner.len());
                        let mut b = Object::new();
                        b.insert("b".to_string(), Value::Array(vec![]));
                        assert!(inner[1] == Value::Object(b));
                    }
                    other => panic!("no array: {:?}", other),
                },
                other => panic!("no object: {:?}", other),
            }
            assert!(items[1] == nested_arrays(2));
            assert!(items[2] == Value::Object(Object::new()));
        }
        other => panic!("no array: {:?}", other),
    }
}

#[test]
fn a_thousand_arrays_deep() {
    let depth = 1000;
    let text = "[".repeat(depth) + &"]".repeat(depth);
    let tokens = lex(text).unwrap();
    assert_eq!(2 * depth, tokens.len());
    let value = parse(tokens).unwrap();
    assert!(value == nested_arrays(depth));
    assert!(value != nested_arrays(depth - 1));
}

#[test]
fn a_thousand_objects_deep() {
    let depth = 1000;
    let text = "{\"k\":".repeat(depth) + "null" + &"}".repeat(depth);
    let tokens = lex(text).unwrap();
    assert_eq!(4 * depth + 1, tokens.len());
    let value = parse(tokens).unwrap();
    assert!(value == nested_objects(depth));
    assert!(value != nested_objects(depth + 1));
}

#[test]
fn unclosed_nesting_is_unbalanced() {
    let depth = 1000;
    let tokens = lex("[".repeat(depth)).unwrap();
    assert_eq!(Err(ParseError::UnbalancedStructure), parse(tokens));
    let tokens = lex("{\"k\":".repeat(depth)).unwrap();
    assert_eq!(Err(ParseError::UnbalancedStructure), parse(tokens));
}

#[test]
fn error_deep_inside_fails_the_whole() {
    let depth = 1000;
    let text = "[".repeat(depth) + "1,]" + &"]".repeat(depth - 1);
    assert_eq!(
        Err(ParseError::MisplacedComma),
        parse(lex(text).unwrap())
    );
    let text = "{\"k\":".repeat(depth) + "{,}" + &"}".repeat(depth);
    assert_eq!(
        Err(ParseError::MisplacedComma),
        parse(lex(text).unwrap())
    );
}
