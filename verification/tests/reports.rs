use camau::diagnostics::{github, one_line, xml, AssessmentData, IssueData};

fn issue(code: &str, path: &str, message: &str) -> IssueData {
    IssueData::new(code.to_owned(), path.to_owned(), message.to_owned())
}

#[test]
fn assessments_order_by_path_then_code_and_drop_repeats() {
    let data = AssessmentData::new(vec![
        issue("B_CODE", "/b", "second"),
        issue("A_CODE", "/b", "first"),
        issue("A_CODE", "/a", "zeroth"),
        issue("A_CODE", "/b", "repeat"),
    ]);
    let seen: Vec<(&str, &str, &str)> = data
        .issues
        .iter()
        .map(|i| (i.path.as_str(), i.code.as_str(), i.message.as_str()))
        .collect();
    assert_eq!(
        seen,
        vec![("/a", "A_CODE", "zeroth"), ("/b", "A_CODE", "first"), ("/b", "B_CODE", "second")]
    );
    assert!(!data.valid());
    assert!(AssessmentData::new(Vec::new()).valid());
}

#[test]
fn text_report_lists_one_line_per_issue() {
    let data = AssessmentData::new(vec![issue("SCHEMA_REQUIRED", "", "missing\r\nfield")]);
    assert_eq!(data.to_text(), "SCHEMA_REQUIRED /: missing  field\n");
    assert_eq!(AssessmentData::new(Vec::new()).to_text(), "Camau assessment valid\n");
}

#[test]
fn junit_report_escapes_its_values() {
    assert_eq!(
        AssessmentData::new(Vec::new()).to_junit_xml(),
        "<?xml version=\"1.0\" encoding=\"UTF-8\"?><testsuite name=\"camau-assessment\" tests=\"1\" failures=\"0\"><testcase name=\"valid\"/></testsuite>"
    );
    let data = AssessmentData::new(vec![issue("X", "/a", "<b> & \"c\"")]);
    assert_eq!(
        data.to_junit_xml(),
        "<?xml version=\"1.0\" encoding=\"UTF-8\"?><testsuite name=\"camau-assessment\" tests=\"1\" failures=\"1\"><testcase name=\"X /a\"><failure type=\"X\" message=\"&lt;b&gt; &amp; &quot;c&quot;\">&lt;b&gt; &amp; &quot;c&quot;</failure></testcase></testsuite>"
    );
}

#[test]
fn github_report_escapes_commands() {
    let data = AssessmentData::new(vec![issue("X", "", "a:b,c%\n")]);
    assert_eq!(
        data.to_github_annotations(Some("spec,1.json")),
        "::error title=X,file=spec%2C1.json::a%3Ab%2Cc%25%0A at /\n"
    );
    assert_eq!(data.to_github_annotations(None), "::error title=X::a%3Ab%2Cc%25%0A at /\n");
    assert_eq!(AssessmentData::new(Vec::new()).to_github_annotations(None), "");
}

#[test]
fn escapes_replace_each_special_character() {
    assert_eq!(one_line("a\rb\nc"), "a b c");
    assert_eq!(xml("'&'"), "&apos;&amp;&apos;");
    assert_eq!(github("%:"), "%25%3A");
}
