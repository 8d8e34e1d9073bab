use camau::json_parser::{
    assess_parsed, contains_nonfinite_literal, contains_text, duplicate_key_problems, failure_code, insert_member,
    is_identifier_byte, JsonProblem,
};
use camau::json_value::JsonValue;

#[test]
fn repeated_keys_are_reported_per_object_in_order() {
    let events = vec![
        (0usize, "/a".to_owned(), "a".to_owned()),
        (1usize, "/b/a".to_owned(), "a".to_owned()),
        (0usize, "/b".to_owned(), "b".to_owned()),
        (0usize, "/a".to_owned(), "a".to_owned()),
        (1usize, "/b/a".to_owned(), "a".to_owned()),
    ];
    let problems = duplicate_key_problems(&events);
    let seen: Vec<(&str, &str, &str)> = problems
        .iter()
        .map(|p| (p.code.as_str(), p.path.as_str(), p.message.as_str()))
        .collect();
    assert_eq!(
        seen,
        vec![
            ("JSON_DUPLICATE_KEY", "/a", "object key \"a\" is repeated"),
            ("JSON_DUPLICATE_KEY", "/b/a", "object key \"a\" is repeated"),
        ]
    );
}

#[test]
fn a_repeated_member_keeps_its_place_and_takes_the_new_value() {
    let mut members = Vec::new();
    insert_member(&mut members, "x", JsonValue::Integer(1));
    insert_member(&mut members, "y", JsonValue::Integer(2));
    insert_member(&mut members, "x", JsonValue::Integer(3));
    assert_eq!(
        members,
        vec![("x".to_owned(), JsonValue::Integer(3)), ("y".to_owned(), JsonValue::Integer(2))]
    );
}

#[test]
fn non_finite_literals_are_found_outside_strings_only() {
    assert!(contains_nonfinite_literal("{\"a\": NaN}"));
    assert!(contains_nonfinite_literal("[-Infinity]"));
    assert!(!contains_nonfinite_literal("{\"a\": \"NaN\"}"));
    assert!(!contains_nonfinite_literal("{\"a\": \"\\\"NaN\"}"));
    assert!(!contains_nonfinite_literal("{\"a\": NaNa}"));
    assert!(!contains_nonfinite_literal("xInfinity"));
    assert!(is_identifier_byte('_'));
    assert!(!is_identifier_byte('-'));
}

#[test]
fn failures_are_classified_by_message_and_source() {
    assert_eq!(failure_code("number out of range at line 1", "{}"), "JSON_VALUE");
    assert_eq!(failure_code("expected value", "[NaN]"), "JSON_VALUE");
    assert_eq!(failure_code("expected value", "[nan]"), "JSON_PARSE");
    assert!(contains_text("abc", "bc"));
    assert!(contains_text("abc", ""));
    assert!(!contains_text("abc", "cd"));
}

#[test]
fn parse_problems_join_the_assessment() {
    let problems = vec![JsonProblem {
        code: "JSON_PARSE".to_owned(),
        path: String::new(),
        message: "expected value".to_owned(),
    }];
    let assessment = assess_parsed(None, &problems);
    assert_eq!(assessment.issues.len(), 1);
    assert_eq!(assessment.issues[0].code, "JSON_PARSE");
    assert!(!assessment.valid());

    let value = JsonValue::Object(vec![("entry".to_owned(), JsonValue::String("a".to_owned()))]);
    let assessment = assess_parsed(Some(&value), &Vec::new());
    assert!(assessment.issues.iter().any(|issue| issue.code == "SCHEMA_REQUIRED"));
}
