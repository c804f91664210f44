use json_parser::lex::lex;
use json_parser::{parse, Number, Object, Value};

fn string_value(s: &str) -> Value {
    Value::String(s.to_string())
}

fn number_value(s: &str) -> Value {
    Value::Number(Number::new(s.to_string()).unwrap())
}

fn read(s: &str) -> Value {
    parse(lex(s.to_string()).unwrap()).unwrap()
}

#[test]
fn object_starts_empty() {
    let members = Object::new();
    assert_eq!(0, members.len());
    assert_eq!(None, members.get("foo"));
    assert!(members.entries().is_empty());
}

#[test]
fn object_holds_what_is_put_in() {
    let mut members = Object::new();
    members.insert("foo".to_string(), string_value("bar"));
    members.insert("baz".to_string(), Value::Boolean(false));
    assert_eq!(2, members.len());
    assert_eq!(Some(&string_value("bar")), members.get("foo"));
    assert_eq!(Some(&Value::Boolean(false)), members.get("baz"));
    assert_eq!(None, members.get("fo"));
    assert_eq!(None, members.get("foo "));
    assert_eq!(None, members.get(""));
}

#[test]
fn object_keeps_the_later_value_of_a_key() {
    let mut members = Object::new();
    members.insert("foo".to_string(), string_value("bar"));
    members.insert("baz".to_string(), Value::Null);
    members.insert("foo".to_string(), Value::Boolean(true));
    assert_eq!(2, members.len());
    assert_eq!(Some(&Value::Boolean(true)), members.get("foo"));
    assert_eq!(Some(&Value::Null), members.get("baz"));
    assert_eq!(2, members.entries().len());
}

#[test]
fn object_has_an_empty_key() {
    let mut members = Object::new();
    members.insert("".to_string(), Value::Null);
    assert_eq!(1, members.len());
    assert_eq!(Some(&Value::Null), members.get(""));
}

#[test]
fn objects_are_equal_in_any_order() {
    let mut first = Object::new();
    first.insert("a".to_string(), number_value("1"));
    first.insert("b".to_string(), number_value("2"));
    let mut second = Object::new();
    second.insert("b".to_string(), number_value("2"));
    second.insert("a".to_string(), number_value("1"));
    assert!(first == second);
    assert!(Value::Object(first) == Value::Object(second));
    assert!(read("{\"a\": 1, \"b\": [{\"c\": 2, \"d\": 3}]}")
        == read("{\"b\": [{\"d\": 3, \"c\": 2}], \"a\": 1}"));
}

#[test]
fn objects_differ_by_key_value_and_size() {
    let base = || {
        let mut members = Object::new();
        members.insert("a".to_string(), number_value("1"));
        members.insert("b".to_string(), number_value("2"));
        members
    };
    let mut other_value = base();
    other_value.insert("b".to_string(), number_value("3"));
    assert!(base() != other_value);
    let mut other_key = Object::new();
    other_key.insert("a".to_string(), number_value("1"));
    other_key.insert("c".to_string(), number_value("2"));
    assert!(base() != other_key);
    let mut larger = base();
    larger.insert("c".to_string(), number_value("3"));
    assert!(base() != larger);
    assert!(larger != base());
    assert!(base() != Object::new());
    assert!(base() == base());
}

#[test]
fn values_are_equal_by_what_they_stand_for() {
    assert!(Value::Null == Value::Null);
    assert!(Value::Boolean(true) == Value::Boolean(true));
    assert!(Value::Boolean(true) != Value::Boolean(false));
    assert!(string_value("a") == string_value("a"));
    assert!(string_value("a") != string_value("b"));
    assert!(string_value("1") != number_value("1"));
    assert!(string_value("null") != Value::Null);
    assert!(number_value("1") == number_value("1"));
    assert!(number_value("1") != number_value("1.0"));
    assert!(Value::Array(vec![]) != Value::Object(Object::new()));
    assert!(Value::Array(vec![]) != Value::Null);
    assert!(
        Value::Array(vec![number_value("1"), number_value("2")])
            == Value::Array(vec![number_value("1"), number_value("2")])
    );
    assert!(
        Value::Array(vec![number_value("1"), number_value("2")])
            != Value::Array(vec![number_value("2"), number_value("1")])
    );
    assert!(Value::Array(vec![number_value("1")]) != Value::Array(vec![number_value("1"), number_value("1")]));
}

#[test]
fn parsed_object_has_one_member_for_each_distinct_key() {
    match read("{\"a\": 1, \"b\": 2, \"a\": 3, \"c\": 4, \"b\": 5, \"a\": 6}") {
        Value::Object(members) => {
            assert_eq!(3, members.len());
            assert_eq!(Some(&number_value("6")), members.get("a"));
            assert_eq!(Some(&number_value("5")), members.get("b"));
            assert_eq!(Some(&number_value("4")), members.get("c"));
        }
        other => panic!("no object: {:?}", other),
    }
}

#[test]
fn parsed_object_foo_bar_baz() {
    match read("{\"foo\": \"bar\", \"baz\": false}") {
        Value::Object(members) => {
            assert_eq!(2, members.len());
            assert_eq!(Some(&string_value("bar")), members.get("foo"));
            assert_eq!(Some(&Value::Boolean(false)), members.get("baz"));
        }
        other => panic!("no object: {:?}", other),
    }
}
