use camau::json_parsing::pointer::{canonical_array_index, JsonPointer};
use camau::json_pointer::{join_pointer, unescape_pointer_token, valid_identifier, valid_pointer};
use camau::json_value::JsonValue;

fn pointer(source: &str) -> JsonPointer {
    JsonPointer::parse(source).unwrap()
}

#[test]
fn pointer_indexes_are_canonical_only_for_arrays() {
    let array = JsonValue::Array(vec![JsonValue::String("zero".to_owned()), JsonValue::Null]);
    assert_eq!(
        array.pointer(&pointer("/0")),
        Some(&JsonValue::String("zero".to_owned()))
    );
    for token in ["", "+0", "+1", "01", "-0", "-1", "18446744073709551616"] {
        assert_eq!(array.pointer(&pointer(&format!("/{token}"))), None);
    }

    let object = JsonValue::Object(
        ["", "+0", "+1", "01", "-0", "-1", "18446744073709551616"]
            .into_iter()
            .map(|key| (key.to_owned(), JsonValue::Null))
            .collect(),
    );
    for token in ["", "+0", "+1", "01", "-0", "-1", "18446744073709551616"] {
        assert_eq!(
            object.pointer(&pointer(&format!("/{token}"))),
            Some(&JsonValue::Null)
        );
    }
}

#[test]
fn pointer_parse_rejects_text_without_leading_slash() {
    assert!(JsonPointer::parse("a").is_none());
    assert!(JsonPointer::parse("/a~2").is_none());
    let root = pointer("");
    assert_eq!(root.as_str(), "");
    assert!(root.tokens().is_empty());
}

#[test]
fn pointer_tokens_are_unescaped_and_indexed() {
    let p = pointer("/a~1b/~0c/12");
    let keys: Vec<&str> = p.tokens().iter().map(|t| t.key()).collect();
    assert_eq!(keys, vec!["a/b", "~c", "12"]);
    assert_eq!(p.tokens()[2].index(), Some(12));
    assert_eq!(p.tokens()[0].index(), None);
    assert_eq!(p.as_str(), "/a~1b/~0c/12");
}

#[test]
fn canonical_indexes_have_no_sign_or_leading_zero() {
    assert_eq!(canonical_array_index("0"), Some(0));
    assert_eq!(canonical_array_index("907"), Some(907));
    assert_eq!(canonical_array_index("07"), None);
    assert_eq!(canonical_array_index("+7"), None);
    assert_eq!(canonical_array_index(""), None);
    assert_eq!(canonical_array_index("18446744073709551615"), Some(usize::MAX));
    assert_eq!(canonical_array_index("18446744073709551616"), None);
}

#[test]
fn joined_pointer_reads_back_its_key() {
    let joined = join_pointer("/nodes", "a/b~c");
    assert_eq!(joined, "/nodes/a~1b~0c");
    let p = pointer(&joined);
    assert_eq!(p.tokens().last().unwrap().key(), "a/b~c");
    assert_eq!(unescape_pointer_token("a~1b~0c"), Some("a/b~c".to_owned()));
    assert_eq!(unescape_pointer_token("a~2"), None);
    assert_eq!(unescape_pointer_token("a~"), None);
}

#[test]
fn identifiers_and_pointers_are_validated() {
    assert!(valid_identifier("call-left"));
    assert!(valid_identifier("a_b.c"));
    assert!(!valid_identifier(""));
    assert!(!valid_identifier("has space"));
    assert!(valid_pointer("/a/0", false));
    assert!(!valid_pointer("", false));
    assert!(valid_pointer("", true));
    assert!(!valid_pointer("a", true));
}

#[test]
fn values_duplicate_and_compare_by_content() {
    let value = JsonValue::Object(vec![
        ("a".to_owned(), JsonValue::Integer(1)),
        ("b".to_owned(), JsonValue::Array(vec![JsonValue::Bool(true)])),
    ]);
    let copy = value.duplicate();
    assert_eq!(copy, value);
    assert!(copy.equals(&value));
    let reordered = JsonValue::Object(vec![
        ("b".to_owned(), JsonValue::Array(vec![JsonValue::Bool(true)])),
        ("a".to_owned(), JsonValue::Integer(1)),
    ]);
    assert!(reordered.equals(&value));
    assert!(!JsonValue::Integer(1).equals(&JsonValue::Integer(2)));
    assert_eq!(value.pointer(&pointer("/b/0")), Some(&JsonValue::Bool(true)));
    assert_eq!(value.pointer(&pointer("/a/0")), None);
    assert_eq!(value.pointer(&pointer("")), Some(&value));
}
