use translation_tool::document::{get_translation_keys, Document, ObjectKeyOption};
use translation_tool::commands::{decimal_string, validation_result, CommandError};
use translation_tool::validate::{file_issues, find_empty_leaves, find_missing_keys};

fn leaf(s: &str) -> Document {
    Document::Leaf(s.to_string())
}

fn group(entries: Vec<(&str, Document)>) -> Document {
    Document::Group(entries.into_iter().map(|(k, v)| (k.to_string(), v)).collect())
}

fn reference() -> Document {
    group(vec![("greeting", leaf("hi")), ("nav", group(vec![("home", leaf("Home"))]))])
}

fn reference_keys() -> Vec<String> {
    get_translation_keys(&reference(), String::new(), ObjectKeyOption::ExcludeObjectKeys)
}

#[test]
fn missing_nested_key_is_reported() {
    let fr = group(vec![("greeting", leaf("bonjour"))]);
    assert_eq!(find_missing_keys(&reference_keys(), &fr), vec!["nav.home".to_string()]);
    let issues = file_issues(&"fr.json".to_string(), &reference_keys(), &fr, false);
    assert_eq!(issues, vec!["fr.json is missing key 'nav.home'".to_string()]);
}

#[test]
fn nothing_missing_when_every_key_is_a_string() {
    let de = group(vec![("nav", group(vec![("home", leaf("Start"))])), ("greeting", leaf("hallo"))]);
    assert!(find_missing_keys(&reference_keys(), &de).is_empty());
}

#[test]
fn a_group_in_place_of_a_string_is_missing() {
    let es = group(vec![("greeting", group(vec![("x", leaf("hola"))])), ("nav", group(vec![("home", leaf("Inicio"))]))]);
    assert_eq!(find_missing_keys(&reference_keys(), &es), vec!["greeting".to_string()]);
}

#[test]
fn empty_values_are_reported_with_the_flag() {
    let fr = group(vec![("greeting", leaf(""))]);
    let issues = file_issues(&"fr.json".to_string(), &reference_keys(), &fr, true);
    assert_eq!(
        issues,
        vec![
            "fr.json is missing key 'nav.home'".to_string(),
            "fr.json has an empty value 'greeting'".to_string(),
        ]
    );
    let without = file_issues(&"fr.json".to_string(), &reference_keys(), &fr, false);
    assert_eq!(without, vec!["fr.json is missing key 'nav.home'".to_string()]);
}

#[test]
fn empty_leaves_carry_their_full_key() {
    let doc = group(vec![("a", group(vec![("b", leaf("")), ("c", leaf("x"))])), ("d", leaf(""))]);
    let mut empty = find_empty_leaves(&doc);
    empty.sort();
    assert_eq!(empty, vec!["a.b".to_string(), "d".to_string()]);
}

#[test]
fn no_issues_for_a_complete_file() {
    let issues = file_issues(&"en.json".to_string(), &reference_keys(), &reference(), true);
    assert!(issues.is_empty());
}

#[test]
fn one_issue_for_one_missing_key() {
    let fr = group(vec![("greeting", leaf("bonjour"))]);
    let issues = file_issues(&"fr.json".to_string(), &reference_keys(), &fr, false);
    assert_eq!(issues.len(), 1);
    assert_eq!(
        validation_result(&issues),
        Err(CommandError::Generic("1 issues found.".to_string()))
    );
}

#[test]
fn two_issues_with_an_empty_value() {
    let fr = group(vec![("greeting", leaf(""))]);
    let issues = file_issues(&"fr.json".to_string(), &reference_keys(), &fr, true);
    assert_eq!(
        validation_result(&issues),
        Err(CommandError::Generic("2 issues found.".to_string()))
    );
}

#[test]
fn no_issues_is_success() {
    assert_eq!(validation_result(&Vec::new()), Ok(()));
}

#[test]
fn nested_empty_value_is_reported_once() {
    let doc = group(vec![("nav", group(vec![("home", leaf(""))]))]);
    let issues = file_issues(&"fr.json".to_string(), &Vec::new(), &doc, true);
    assert_eq!(issues, vec!["fr.json has an empty value 'nav.home'".to_string()]);
}

#[test]
fn keys_are_listed_once() {
    let keys = reference_keys();
    assert_eq!(keys.len(), 2);
    let doc = group(vec![("a", leaf("1")), ("a", leaf("2"))]);
    assert_eq!(get_translation_keys(&doc, String::new(), ObjectKeyOption::ExcludeObjectKeys), vec!["a".to_string()]);
}

#[test]
fn large_counts_are_written_in_decimal() {
    assert_eq!(decimal_string(0), "0");
    assert_eq!(decimal_string(7), "7");
    assert_eq!(decimal_string(10), "10");
    assert_eq!(decimal_string(12045), "12045");
}
