use translation_tool::access::{get_translation_value, update_translation_key};
use translation_tool::document::{get_translation_keys, Document, ObjectKeyOption};
use translation_tool::error::ParserError;

fn leaf(s: &str) -> Document {
    Document::Leaf(s.to_string())
}

fn group(entries: Vec<(&str, Document)>) -> Document {
    Document::Group(entries.into_iter().map(|(k, v)| (k.to_string(), v)).collect())
}

fn sorted(mut v: Vec<String>) -> Vec<String> {
    v.sort();
    v
}

fn three_levels() -> Document {
    group(vec![
        ("title", leaf("Title")),
        (
            "nav",
            group(vec![
                ("home", leaf("Home")),
                ("menu", group(vec![("open", leaf("Open")), ("close", leaf(""))])),
            ]),
        ),
        ("footer", group(vec![("legal", leaf("Legal"))])),
        ("empty", group(vec![])),
    ])
}

#[test]
fn leaf_keys_are_exactly_the_translation_strings() {
    let keys = get_translation_keys(&three_levels(), String::new(), ObjectKeyOption::ExcludeObjectKeys);
    assert_eq!(
        sorted(keys),
        vec!["footer.legal", "nav.home", "nav.menu.close", "nav.menu.open", "title"]
    );
}

#[test]
fn group_keys_are_the_terminal_groups() {
    let keys = get_translation_keys(&three_levels(), String::new(), ObjectKeyOption::OnlyObjectKeys);
    assert_eq!(sorted(keys), vec!["empty", "footer", "nav.menu"]);
}

#[test]
fn keys_start_from_the_given_prefix() {
    let doc = group(vec![("a", leaf("x"))]);
    let keys = get_translation_keys(&doc, "root".to_string(), ObjectKeyOption::ExcludeObjectKeys);
    assert_eq!(keys, vec!["root.a"]);
}

#[test]
fn a_leaf_root_has_no_keys() {
    assert!(get_translation_keys(&leaf("x"), String::new(), ObjectKeyOption::ExcludeObjectKeys).is_empty());
    assert!(get_translation_keys(&leaf("x"), String::new(), ObjectKeyOption::OnlyObjectKeys).is_empty());
}

#[test]
fn setting_into_an_empty_document_creates_groups() {
    let r = update_translation_key(group(vec![]), "a.b".to_string(), "x".to_string());
    assert_eq!(r, Ok(group(vec![("a", group(vec![("b", leaf("x"))]))])));
}

#[test]
fn setting_below_a_string_is_a_conflict() {
    let r = update_translation_key(group(vec![("a", leaf("leaf"))]), "a.b".to_string(), "x".to_string());
    assert_eq!(r, Err(ParserError::PathSegmentConflict { path: "a".to_string() }));
}

#[test]
fn conflict_names_the_whole_prefix() {
    let doc = group(vec![("a", group(vec![("b", leaf("x"))]))]);
    let r = update_translation_key(doc, "a.b.c.d".to_string(), "y".to_string());
    assert_eq!(r, Err(ParserError::PathSegmentConflict { path: "a.b".to_string() }));
}

#[test]
fn setting_on_a_string_root_fails() {
    let r = update_translation_key(leaf("x"), "a".to_string(), "y".to_string());
    assert_eq!(r, Err(ParserError::RootNotAGroup));
}

#[test]
fn setting_overwrites_and_replaces_groups() {
    let doc = group(vec![("a", leaf("old")), ("g", group(vec![("x", leaf("1"))]))]);
    let doc = update_translation_key(doc, "a".to_string(), "new".to_string()).unwrap();
    let doc = update_translation_key(doc, "g".to_string(), "flat".to_string()).unwrap();
    assert_eq!(doc, group(vec![("a", leaf("new")), ("g", leaf("flat"))]));
}

#[test]
fn setting_keeps_the_other_keys() {
    let doc = group(vec![("a", group(vec![("x", leaf("1"))])), ("b", leaf("2"))]);
    let doc = update_translation_key(doc, "a.y".to_string(), "3".to_string()).unwrap();
    assert_eq!(
        doc,
        group(vec![("a", group(vec![("x", leaf("1")), ("y", leaf("3"))])), ("b", leaf("2"))])
    );
}

#[test]
fn reading_back_a_set_value() {
    let doc = three_levels();
    let doc = update_translation_key(doc, "nav.menu.open".to_string(), "Ouvrir".to_string()).unwrap();
    assert_eq!(get_translation_value(&doc, "nav.menu.open".to_string()), Ok("Ouvrir".to_string()));
    let doc = update_translation_key(doc, "new.deep.key".to_string(), "v".to_string()).unwrap();
    assert_eq!(get_translation_value(&doc, "new.deep.key".to_string()), Ok("v".to_string()));
}

#[test]
fn reading_reports_the_missing_segment() {
    let doc = three_levels();
    assert_eq!(
        get_translation_value(&doc, "nav.missing.x".to_string()),
        Err(ParserError::KeyNotFound { key: "missing".to_string() })
    );
    assert_eq!(
        get_translation_value(&doc, "title.x".to_string()),
        Err(ParserError::KeyNotFound { key: "x".to_string() })
    );
}

#[test]
fn reading_a_group_is_not_a_string() {
    assert_eq!(
        get_translation_value(&three_levels(), "nav.menu".to_string()),
        Err(ParserError::NotAString { key: "menu".to_string() })
    );
}

#[test]
fn reading_an_empty_string() {
    assert_eq!(get_translation_value(&three_levels(), "nav.menu.close".to_string()), Ok(String::new()));
}

#[test]
fn group_keys_of_a_deep_document() {
    let doc = group(vec![
        ("a", group(vec![("b", group(vec![("c", group(vec![("d", leaf("x"))]))])), ("e", group(vec![("f", leaf("y"))]))])),
        ("g", leaf("z")),
    ]);
    let keys = get_translation_keys(&doc, String::new(), ObjectKeyOption::OnlyObjectKeys);
    assert_eq!(sorted(keys), vec!["a.b.c", "a.e"]);
}
