use translation_tool::document::Document;
use translation_tool::error::ParserError;
use translation_tool::json::{parse_document, to_json_value, JsonValue};
use translation_tool::keypath::{contains_text, join_key, split_key, split_text};

fn from_serde(v: serde_json::Value) -> JsonValue {
    match v {
        serde_json::Value::Null => JsonValue::Null,
        serde_json::Value::Bool(b) => JsonValue::Bool(b),
        serde_json::Value::Number(n) => JsonValue::Number(n.to_string()),
        serde_json::Value::String(s) => JsonValue::String(s),
        serde_json::Value::Array(items) => JsonValue::Array(items.into_iter().map(from_serde).collect()),
        serde_json::Value::Object(map) => {
            JsonValue::Object(map.into_iter().map(|(k, v)| (k, from_serde(v))).collect())
        }
    }
}

fn to_serde(v: JsonValue) -> serde_json::Value {
    match v {
        JsonValue::Null => serde_json::Value::Null,
        JsonValue::Bool(b) => serde_json::Value::Bool(b),
        JsonValue::Number(n) => serde_json::Value::Number(n.parse().unwrap()),
        JsonValue::String(s) => serde_json::Value::String(s),
        JsonValue::Array(items) => serde_json::Value::Array(items.into_iter().map(to_serde).collect()),
        JsonValue::Object(entries) => {
            serde_json::Value::Object(entries.into_iter().map(|(k, v)| (k, to_serde(v))).collect())
        }
    }
}

fn parse_text(text: &str) -> Result<Document, ParserError> {
    parse_document(&from_serde(serde_json::from_str(text).unwrap()))
}

#[test]
fn parses_strings_and_objects() {
    let doc = parse_text(r#"{"a": {"b": "x"}, "c": ""}"#).unwrap();
    assert_eq!(
        doc,
        Document::Group(vec![
            ("a".to_string(), Document::Group(vec![("b".to_string(), Document::Leaf("x".to_string()))])),
            ("c".to_string(), Document::Leaf(String::new())),
        ])
    );
}

#[test]
fn rejects_a_number_with_its_key() {
    assert_eq!(
        parse_text(r#"{"a": {"b": 3}}"#),
        Err(ParserError::InvalidValueType { key: "a.b".to_string(), value_type: "number".to_string() })
    );
}

#[test]
fn rejects_arrays_booleans_and_null() {
    assert_eq!(
        parse_text(r#"{"x": [1]}"#),
        Err(ParserError::InvalidValueType { key: "x".to_string(), value_type: "array".to_string() })
    );
    assert_eq!(
        parse_text(r#"{"x": true}"#),
        Err(ParserError::InvalidValueType { key: "x".to_string(), value_type: "boolean".to_string() })
    );
    assert_eq!(
        parse_text(r#"{"x": null}"#),
        Err(ParserError::InvalidValueType { key: "x".to_string(), value_type: "null".to_string() })
    );
}

#[test]
fn rejects_a_non_object_root() {
    assert_eq!(parse_text(r#""text""#), Err(ParserError::RootNotAGroup));
    assert_eq!(parse_text("[]"), Err(ParserError::RootNotAGroup));
}

#[test]
fn text_round_trip() {
    let text = r#"{"en": {"greeting": "hi", "nav": {"home": "Home", "empty": {}}}, "z": ""}"#;
    let first = parse_text(text).unwrap();
    let written = serde_json::to_string_pretty(&to_serde(to_json_value(&first))).unwrap();
    let second = parse_text(&written).unwrap();
    assert_eq!(first, second);
}

#[test]
fn document_to_json_value() {
    let doc = Document::Group(vec![("k".to_string(), Document::Leaf("v".to_string()))]);
    assert_eq!(
        to_json_value(&doc),
        JsonValue::Object(vec![("k".to_string(), JsonValue::String("v".to_string()))])
    );
    assert_eq!(parse_document(&to_json_value(&doc)), Ok(doc));
}

#[test]
fn splitting_keys_on_dots() {
    assert_eq!(split_key("a.b.c"), vec!["a", "b", "c"]);
    assert_eq!(split_key("single"), vec!["single"]);
    assert_eq!(split_key(""), vec![""]);
    assert_eq!(split_key("a..b."), vec!["a", "", "b", ""]);
    assert_eq!(split_text("one two", ' '), vec!["one", "two"]);
}

#[test]
fn joining_keys_with_dots() {
    let segs = vec!["nav".to_string(), "menu".to_string(), "open".to_string()];
    assert_eq!(join_key(&segs), "nav.menu.open");
    assert_eq!(join_key(&split_key("x.y")), "x.y");
    assert_eq!(join_key(&Vec::new()), "");
}

#[test]
fn substring_search() {
    assert!(contains_text("nav.home", "home"));
    assert!(contains_text("nav.home", ""));
    assert!(!contains_text("nav.home", "menu"));
    assert!(!contains_text("ab", "abc"));
    assert!(contains_text("héllo", "él"));
}
