use chat_recall::normalize::{clean_completion, normalize, settle};
use serde_json::Value;

fn parsed(text: &str) -> Value {
    serde_json::from_str(text).unwrap()
}

#[test]
fn fenced_json_parses() {
    let v = normalize("```json\n{\"a\":1}\n```");
    assert_eq!(v, parsed("{\"a\":1}"));
}

#[test]
fn bare_label_is_dropped() {
    let v = normalize("json\n{\"a\":1}");
    assert_eq!(v, parsed("{\"a\":1}"));
}

#[test]
fn plain_text_becomes_string() {
    let v = normalize("not json at all");
    assert_eq!(v, Value::String("not json at all".to_string()));
}

#[test]
fn fence_without_label_parses() {
    let v = normalize("  ```\n[1, 2]\n```  ");
    assert_eq!(v, parsed("[1,2]"));
}

#[test]
fn upper_case_label_is_dropped() {
    assert_eq!(clean_completion("JSON {\"b\":true}"), "{\"b\":true}");
}

#[test]
fn lone_opening_fence_is_kept() {
    assert_eq!(clean_completion("```json\n{\"a\":1}"), "```json\n{\"a\":1}");
}

#[test]
fn whitespace_is_trimmed() {
    assert_eq!(clean_completion(" \t\n hello \r\n"), "hello");
    assert_eq!(clean_completion(""), "");
    assert_eq!(clean_completion("   "), "");
}

#[test]
fn malformed_json_is_kept_as_trimmed_text() {
    let v = normalize("```json\n{\"a\":\n```");
    assert_eq!(v, Value::String("{\"a\":".to_string()));
}

#[test]
fn settle_prefers_parsed_value() {
    assert_eq!(settle(Some(parsed("3")), "x".to_string()), parsed("3"));
    assert_eq!(settle(None, "x".to_string()), Value::String("x".to_string()));
}

#[test]
fn label_must_be_a_bare_word() {
    assert_eq!(clean_completion("jsonify this"), "jsonify this");
    assert_eq!(clean_completion("json_x"), "json_x");
    assert_eq!(clean_completion("json{\"a\":1}"), "{\"a\":1}");
    assert_eq!(clean_completion("json"), "");
}
