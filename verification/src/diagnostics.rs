//! Assessment issues, their canonical order, and the text, JUnit XML and GitHub renderers.
use vstd::prelude::*;

use crate::text::{chars_of, decimal, lemma_map_chars_excludes, lemma_map_chars_step, map_chars, owned,
    push_char, push_decimal, text_less, text_lt, lemma_text_lt_asymmetric, lemma_text_lt_irreflexive,
    lemma_text_lt_total, lemma_text_lt_transitive};

verus! {

/// One assessment finding: a stable code, a JSON Pointer path and a message.
#[derive(Debug, PartialEq, Eq, PartialOrd, Ord)]
pub struct IssueData {
    pub path: String,
    pub code: String,
    pub message: String,
}

/// The abstract issue: `(path, code, message)`.
pub type IssueView = (Seq<char>, Seq<char>, Seq<char>);

impl View for IssueData {
    type V = IssueView;

    open spec fn view(&self) -> IssueView {
        (self.path@, self.code@, self.message@)
    }
}

impl Clone for IssueData {
    fn clone(&self) -> (result: Self)
        ensures
            result@ == self@,
    {
        IssueData { path: self.path.clone(), code: self.code.clone(), message: self.message.clone() }
    }
}

impl IssueData {
    /// Creates an issue from its code, path and message.
    pub fn new(code: String, path: String, message: String) -> (result: Self)
        ensures
            result@ == (path@, code@, message@),
    {
        IssueData { path, code, message }
    }
}

/// Builds an issue from a code literal, an owned path and a message literal.
pub fn issue(code: &str, path: String, message: &str) -> (result: IssueData)
    ensures
        result@ == (path@, code@, message@),
{
    IssueData::new(owned(code), path, owned(message))
}

/// The abstract views of a sequence of issues.
pub open spec fn issue_views(issues: Seq<IssueData>) -> Seq<IssueView> {
    issues.map_values(|issue: IssueData| issue@)
}

/// Two issues share the ordering key `(path, code)`.
pub open spec fn same_key(a: IssueView, b: IssueView) -> bool {
    a.0 == b.0 && a.1 == b.1
}

/// Strict order of issues: by path in Unicode scalar-value order, then by code.
pub open spec fn key_lt(a: IssueView, b: IssueView) -> bool {
    text_lt(a.0, b.0) || (a.0 == b.0 && text_lt(a.1, b.1))
}

/// `input[j]` is the first issue of `input` with its key.
pub open spec fn first_of_key(input: Seq<IssueView>, j: int) -> bool {
    forall|k: int| 0 <= k < j ==> !same_key(#[trigger] input[k], input[j])
}

/// `input[j]` is `issue` and is the first issue of `input` with its key.
pub open spec fn first_copy(input: Seq<IssueView>, j: int, issue: IssueView) -> bool {
    input[j] == issue && first_of_key(input, j)
}

/// `issue` occurs in `input` as the first issue with its key.
pub open spec fn first_in(input: Seq<IssueView>, issue: IssueView) -> bool {
    exists|j: int| 0 <= j < input.len() && #[trigger] first_copy(input, j, issue)
}

/// Some issue of `output` has the key of `issue`.
pub open spec fn key_in(output: Seq<IssueView>, issue: IssueView) -> bool {
    exists|i: int| 0 <= i < output.len() && same_key(#[trigger] output[i], issue)
}

/// `output` is `input` sorted by `(path, code)` with only the first issue of each key kept:
/// what a stable sort followed by removing repeated keys produces.
pub open spec fn canonical_report(input: Seq<IssueView>, output: Seq<IssueView>) -> bool {
    &&& forall|i: int, j: int| 0 <= i < j < output.len() ==> key_lt(#[trigger] output[i], #[trigger] output[j])
    &&& forall|i: int| 0 <= i < output.len() ==> first_in(input, #[trigger] output[i])
    &&& forall|j: int| 0 <= j < input.len() ==> key_in(output, #[trigger] input[j])
}

proof fn lemma_key_lt_transitive(a: IssueView, b: IssueView, c: IssueView)
    requires
        key_lt(a, b),
        key_lt(b, c),
    ensures
        key_lt(a, c),
{
    if text_lt(a.0, b.0) && text_lt(b.0, c.0) {
        lemma_text_lt_transitive(a.0, b.0, c.0);
    } else if text_lt(a.0, b.0) {
    } else if text_lt(b.0, c.0) {
    } else {
        lemma_text_lt_transitive(a.1, b.1, c.1);
    }
}

proof fn lemma_key_lt_total(a: IssueView, b: IssueView)
    ensures
        same_key(a, b) || key_lt(a, b) || key_lt(b, a),
{
    lemma_text_lt_total(a.0, b.0);
    lemma_text_lt_total(a.1, b.1);
}

proof fn lemma_key_lt_not_same(a: IssueView, b: IssueView)
    requires
        key_lt(a, b),
    ensures
        !same_key(a, b),
        !key_lt(b, a),
{
    lemma_text_lt_irreflexive(a.0);
    lemma_text_lt_irreflexive(a.1);
    if text_lt(a.0, b.0) {
        lemma_text_lt_asymmetric(a.0, b.0);
    } else {
        lemma_text_lt_asymmetric(a.1, b.1);
    }
}


/// The canonical report of the first `i` issues of `input`, with explicit witnesses:
/// `origin[q]` is where `output[q]` comes from, and `slot[j]` is the output issue with the key of `input[j]`.
spec fn tracked_report(input: Seq<IssueView>, i: int, output: Seq<IssueView>, origin: Seq<int>, slot: Seq<int>) -> bool {
    &&& origin.len() == output.len()
    &&& slot.len() == i
    &&& forall|a: int, b: int| 0 <= a < b < output.len() ==> key_lt(#[trigger] output[a], #[trigger] output[b])
    &&& forall|q: int| 0 <= q < output.len() ==> 0 <= #[trigger] origin[q] < i && input[origin[q]] == output[q]
        && first_of_key(input, origin[q])
    &&& forall|j: int| 0 <= j < i ==> 0 <= #[trigger] slot[j] < output.len() && same_key(output[slot[j]], input[j])
}

proof fn lemma_report_skip(
    input: Seq<IssueView>,
    i: int,
    before: Seq<IssueView>,
    origin: Seq<int>,
    slot: Seq<int>,
    p: int,
)
    requires
        0 <= i < input.len(),
        0 <= p < before.len(),
        tracked_report(input, i, before, origin, slot),
        same_key(before[p], input[i]),
    ensures
        tracked_report(input, i + 1, before, origin, slot.push(p)),
{
    let slot2 = slot.push(p);
    assert forall|j: int| 0 <= j < i + 1 implies 0 <= #[trigger] slot2[j] < before.len()
        && same_key(before[slot2[j]], input[j]) by {
        if j < i {
            assert(slot2[j] == slot[j]);
        }
    }
}

proof fn lemma_report_insert(
    input: Seq<IssueView>,
    i: int,
    before: Seq<IssueView>,
    origin: Seq<int>,
    slot: Seq<int>,
    p: int,
)
    requires
        0 <= i < input.len(),
        0 <= p <= before.len(),
        tracked_report(input, i, before, origin, slot),
        forall|k: int| 0 <= k < p ==> key_lt(#[trigger] before[k], input[i]),
        p < before.len() ==> !key_lt(before[p], input[i]) && !same_key(before[p], input[i]),
    ensures
        tracked_report(
            input,
            i + 1,
            before.insert(p, input[i]),
            origin.insert(p, i),
            Seq::new(slot.len(), |j: int| if slot[j] >= p { slot[j] + 1 } else { slot[j] }).push(p),
        ),
{
    let item = input[i];
    let after = before.insert(p, item);
    let origin2 = origin.insert(p, i);
    let slot2 = Seq::new(slot.len(), |j: int| if slot[j] >= p { slot[j] + 1 } else { slot[j] }).push(p);
    if p < before.len() {
        lemma_key_lt_total(before[p], item);
    }
    assert forall|a: int, b: int| 0 <= a < b < after.len() implies key_lt(#[trigger] after[a], #[trigger] after[b]) by {
        if b < p {
            assert(after[a] == before[a] && after[b] == before[b]);
        } else if b == p {
            assert(after[a] == before[a]);
        } else if a < p {
            assert(after[a] == before[a] && after[b] == before[b - 1]);
            if b == p + 1 {
                lemma_key_lt_transitive(after[a], item, after[b]);
            } else {
                lemma_key_lt_transitive(before[a], before[p], before[b - 1]);
            }
        } else if a == p {
            assert(after[b] == before[b - 1]);
            if b - 1 > p {
                lemma_key_lt_transitive(item, before[p], before[b - 1]);
            }
        } else {
            assert(after[a] == before[a - 1] && after[b] == before[b - 1]);
        }
    }
    // no earlier issue shares the key of the inserted one
    assert forall|k: int| 0 <= k < i implies !same_key(#[trigger] input[k], item) by {
        let q = slot[k];
        assert(same_key(before[q], input[k]));
        if q < p {
            lemma_key_lt_not_same(before[q], item);
        } else if q > p {
            lemma_key_lt_transitive(item, before[p], before[q]);
            lemma_key_lt_not_same(item, before[q]);
        }
    }
    assert(first_of_key(input, i));
    assert forall|q: int| 0 <= q < after.len() implies 0 <= #[trigger] origin2[q] < i + 1
        && input[origin2[q]] == after[q] && first_of_key(input, origin2[q]) by {
        if q < p {
            assert(origin2[q] == origin[q] && after[q] == before[q]);
        } else if q > p {
            assert(origin2[q] == origin[q - 1] && after[q] == before[q - 1]);
        }
    }
    assert forall|j: int| 0 <= j < i + 1 implies 0 <= #[trigger] slot2[j] < after.len()
        && same_key(after[slot2[j]], input[j]) by {
        if j < i {
            let q = slot[j];
            if q >= p {
                assert(slot2[j] == q + 1 && after[q + 1] == before[q]);
            } else {
                assert(slot2[j] == q && after[q] == before[q]);
            }
        }
    }
}

proof fn lemma_report_done(input: Seq<IssueView>, output: Seq<IssueView>, origin: Seq<int>, slot: Seq<int>)
    requires
        tracked_report(input, input.len() as int, output, origin, slot),
    ensures
        canonical_report(input, output),
{
    assert forall|i: int| 0 <= i < output.len() implies first_in(input, #[trigger] output[i]) by {
        assert(first_copy(input, origin[i], output[i]));
    }
    assert forall|j: int| 0 <= j < input.len() implies key_in(output, #[trigger] input[j]) by {
        assert(same_key(output[slot[j]], input[j]));
    }
    assert(forall|a: int, b: int| 0 <= a < b < output.len() ==> key_lt(#[trigger] output[a], #[trigger] output[b]));

}

fn issue_less(a: &IssueData, b: &IssueData) -> (result: bool)
    ensures
        result == key_lt(a@, b@),
{
    text_less(a.path.as_str(), b.path.as_str()) || (a.path == b.path && text_less(a.code.as_str(), b.code.as_str()))
}

fn issue_same_key(a: &IssueData, b: &IssueData) -> (result: bool)
    ensures
        result == same_key(a@, b@),
{
    a.path == b.path && a.code == b.code
}

/// An immutable assessment: the issues in canonical order.
pub struct AssessmentData {
    pub issues: Vec<IssueData>,
}

impl AssessmentData {
    /// Orders the issues by path then code and keeps the first issue of each `(path, code)`.
    pub fn new(issues: Vec<IssueData>) -> (result: Self)
        ensures
            canonical_report(issue_views(issues@), issue_views(result.issues@)),
    {
        let ghost input = issue_views(issues@);
        let ghost mut origin: Seq<int> = Seq::empty();
        let ghost mut slot: Seq<int> = Seq::empty();
        let mut output: Vec<IssueData> = Vec::new();
        let n = issues.len();
        let mut i: usize = 0;
        while i < n
            invariant
                n == issues.len(),
                i <= n,
                input == issue_views(issues@),
                input.len() == n,
                tracked_report(input, i as int, issue_views(output@), origin, slot),
            decreases n - i,
        {
            let item = issues[i].clone();
            let ghost before = issue_views(output@);
            assert(item@ == input[i as int]);
            let mut p: usize = 0;
            while p < output.len() && issue_less(&output[p], &item)
                invariant
                    p <= output.len(),
                    before == issue_views(output@),
                    forall|k: int| 0 <= k < p ==> key_lt(#[trigger] before[k], item@),
                decreases output.len() - p,
            {
                p = p + 1;
            }
            if p < output.len() && issue_same_key(&output[p], &item) {
                proof {
                    lemma_report_skip(input, i as int, before, origin, slot, p as int);
                    slot = slot.push(p as int);
                }
            } else {
                proof {
                    lemma_report_insert(input, i as int, before, origin, slot, p as int);
                    origin = origin.insert(p as int, i as int);
                    slot = Seq::new(slot.len(), |j: int| if slot[j] >= p { slot[j] + 1 } else { slot[j] }).push(p as int);
                }
                output.insert(p, item);
                assert(issue_views(output@) =~= before.insert(p as int, input[i as int]));
            }
            i = i + 1;
        }
        proof {
            lemma_report_done(input, issue_views(output@), origin, slot);
        }
        AssessmentData { issues: output }
    }

    /// Whether the assessment found no issue.
    pub fn valid(&self) -> (result: bool)
        ensures
            result == (self.issues@.len() == 0),
    {
        self.issues.len() == 0
    }
}


/// The path as reports show it: the root pointer is shown as `/`.
pub open spec fn shown_path(path: Seq<char>) -> Seq<char> {
    if path.len() == 0 {
        "/"@
    } else {
        path
    }
}

/// Newlines and carriage returns become spaces.
pub open spec fn one_line_char(c: char) -> Seq<char> {
    if c == '\r' || c == '\n' {
        seq![' ']
    } else {
        seq![c]
    }
}

pub open spec fn one_line_map() -> spec_fn(char) -> Seq<char> {
    |c: char| one_line_char(c)
}

/// XML escaping of the five special characters.
pub open spec fn xml_char(c: char) -> Seq<char> {
    if c == '&' {
        "&amp;"@
    } else if c == '<' {
        "&lt;"@
    } else if c == '>' {
        "&gt;"@
    } else if c == '"' {
        "&quot;"@
    } else if c == '\'' {
        "&apos;"@
    } else {
        seq![c]
    }
}

pub open spec fn xml_map() -> spec_fn(char) -> Seq<char> {
    |c: char| xml_char(c)
}

/// GitHub workflow-command escaping of `%`, carriage return, newline, `:` and `,`.
pub open spec fn github_char(c: char) -> Seq<char> {
    if c == '%' {
        "%25"@
    } else if c == '\r' {
        "%0D"@
    } else if c == '\n' {
        "%0A"@
    } else if c == ':' {
        "%3A"@
    } else if c == ',' {
        "%2C"@
    } else {
        seq![c]
    }
}

pub open spec fn github_map() -> spec_fn(char) -> Seq<char> {
    |c: char| github_char(c)
}

/// One line of the text report.
pub open spec fn text_line(issue: IssueView) -> Seq<char> {
    issue.1 + " "@ + shown_path(issue.0) + ": "@ + map_chars(issue.2, one_line_map()) + "\n"@
}

pub open spec fn text_lines(issues: Seq<IssueView>) -> Seq<char>
    decreases issues.len(),
{
    if issues.len() == 0 {
        Seq::empty()
    } else {
        text_lines(issues.drop_last()) + text_line(issues.last())
    }
}

/// The whole text report.
pub open spec fn text_report(issues: Seq<IssueView>) -> Seq<char> {
    if issues.len() == 0 {
        "Camau assessment valid\n"@
    } else {
        text_lines(issues)
    }
}

/// One JUnit test case for one issue.
pub open spec fn junit_case(issue: IssueView) -> Seq<char> {
    "<testcase name=\""@ + map_chars(issue.1, xml_map()) + " "@ + map_chars(issue.0, xml_map())
        + "\"><failure type=\""@ + map_chars(issue.1, xml_map()) + "\" message=\""@
        + map_chars(issue.2, xml_map()) + "\">"@ + map_chars(issue.2, xml_map())
        + "</failure></testcase>"@
}

pub open spec fn junit_cases(issues: Seq<IssueView>) -> Seq<char>
    decreases issues.len(),
{
    if issues.len() == 0 {
        Seq::empty()
    } else {
        junit_cases(issues.drop_last()) + junit_case(issues.last())
    }
}

/// The whole JUnit XML report.
pub open spec fn junit_report(issues: Seq<IssueView>) -> Seq<char> {
    if issues.len() == 0 {
        "<?xml version=\"1.0\" encoding=\"UTF-8\"?><testsuite name=\"camau-assessment\" tests=\"1\" failures=\"0\"><testcase name=\"valid\"/></testsuite>"@
    } else {
        "<?xml version=\"1.0\" encoding=\"UTF-8\"?><testsuite name=\"camau-assessment\" tests=\""@
            + decimal(issues.len()) + "\" failures=\""@ + decimal(issues.len()) + "\">"@
            + junit_cases(issues) + "</testsuite>"@
    }
}

/// The `file` property of an annotation, when a source name is given.
pub open spec fn github_source(source: Option<Seq<char>>) -> Seq<char> {
    match source {
        Some(name) => ",file="@ + map_chars(name, github_map()),
        None => Seq::empty(),
    }
}

/// One GitHub `error` annotation.
pub open spec fn github_line(issue: IssueView, source: Option<Seq<char>>) -> Seq<char> {
    "::error title="@ + map_chars(issue.1, github_map()) + github_source(source) + "::"@
        + map_chars(issue.2, github_map()) + " at "@ + map_chars(shown_path(issue.0), github_map())
        + "\n"@
}

pub open spec fn github_report(issues: Seq<IssueView>, source: Option<Seq<char>>) -> Seq<char>
    decreases issues.len(),
{
    if issues.len() == 0 {
        Seq::empty()
    } else {
        github_report(issues.drop_last(), source) + github_line(issues.last(), source)
    }
}

proof fn lemma_views_step(issues: Seq<IssueData>, i: int)
    requires
        0 <= i < issues.len(),
    ensures
        issue_views(issues).take(i + 1).drop_last() =~= issue_views(issues).take(i),
        issue_views(issues).take(i + 1).last() == issues[i]@,
{
}

/// Appends `text` with newlines and carriage returns replaced by spaces.
fn push_one_line(out: &mut String, value: &str)
    ensures
        final(out)@ == old(out)@ + map_chars(value@, one_line_map()),
{
    let chars = chars_of(value);
    let ghost start = out@;
    let mut i: usize = 0;
    while i < chars.len()
        invariant
            chars@ == value@,
            i <= chars.len(),
            out@ == start + map_chars(chars@.take(i as int), one_line_map()),
        decreases chars.len() - i,
    {
        let c = chars[i];
        proof {
            lemma_map_chars_step(chars@, i as int, one_line_map());
        }
        if c == '\r' || c == '\n' {
            push_char(out, ' ');
        } else {
            push_char(out, c);
        }
        assert(out@ =~= start + map_chars(chars@.take(i + 1), one_line_map()));
        i = i + 1;
    }
    assert(chars@.take(chars.len() as int) =~= chars@);
}

/// Appends `value` escaped for XML text and attributes.
fn push_xml(out: &mut String, value: &str)
    ensures
        final(out)@ == old(out)@ + map_chars(value@, xml_map()),
{
    let chars = chars_of(value);
    let ghost start = out@;
    let mut i: usize = 0;
    while i < chars.len()
        invariant
            chars@ == value@,
            i <= chars.len(),
            out@ == start + map_chars(chars@.take(i as int), xml_map()),
        decreases chars.len() - i,
    {
        let c = chars[i];
        proof {
            lemma_map_chars_step(chars@, i as int, xml_map());
        }
        if c == '&' {
            out.append("&amp;");
        } else if c == '<' {
            out.append("&lt;");
        } else if c == '>' {
            out.append("&gt;");
        } else if c == '"' {
            out.append("&quot;");
        } else if c == '\'' {
            out.append("&apos;");
        } else {
            push_char(out, c);
        }
        assert(out@ =~= start + map_chars(chars@.take(i + 1), xml_map()));
        i = i + 1;
    }
    assert(chars@.take(chars.len() as int) =~= chars@);
}

/// Appends `value` escaped for a GitHub workflow command.
fn push_github(out: &mut String, value: &str)
    ensures
        final(out)@ == old(out)@ + map_chars(value@, github_map()),
{
    let chars = chars_of(value);
    let ghost start = out@;
    let mut i: usize = 0;
    while i < chars.len()
        invariant
            chars@ == value@,
            i <= chars.len(),
            out@ == start + map_chars(chars@.take(i as int), github_map()),
        decreases chars.len() - i,
    {
        let c = chars[i];
        proof {
            lemma_map_chars_step(chars@, i as int, github_map());
        }
        if c == '%' {
            out.append("%25");
        } else if c == '\r' {
            out.append("%0D");
        } else if c == '\n' {
            out.append("%0A");
        } else if c == ':' {
            out.append("%3A");
        } else if c == ',' {
            out.append("%2C");
        } else {
            push_char(out, c);
        }
        assert(out@ =~= start + map_chars(chars@.take(i + 1), github_map()));
        i = i + 1;
    }
    assert(chars@.take(chars.len() as int) =~= chars@);
}

/// Replaces newlines and carriage returns by spaces.
pub fn one_line(value: &str) -> (result: String)
    ensures
        result@ == map_chars(value@, one_line_map()),
{
    let mut out = String::new();
    push_one_line(&mut out, value);
    out
}

/// Escapes the XML special characters `&`, `<`, `>`, `"` and `'`.
pub fn xml(value: &str) -> (result: String)
    ensures
        result@ == map_chars(value@, xml_map()),
{
    let mut out = String::new();
    push_xml(&mut out, value);
    out
}

/// Escapes a value for a GitHub workflow command.
pub fn github(value: &str) -> (result: String)
    ensures
        result@ == map_chars(value@, github_map()),
{
    let mut out = String::new();
    push_github(&mut out, value);
    out
}

/// Escaped XML holds none of `<`, `>`, `"` or `'`.
pub proof fn lemma_xml_escape_is_inert(value: Seq<char>)
    ensures
        !map_chars(value, xml_map()).contains('<'),
        !map_chars(value, xml_map()).contains('>'),
        !map_chars(value, xml_map()).contains('"'),
        !map_chars(value, xml_map()).contains('\''),
{
    reveal_strlit("&amp;");
    reveal_strlit("&lt;");
    reveal_strlit("&gt;");
    reveal_strlit("&quot;");
    reveal_strlit("&apos;");
    assert forall|x: char| !(#[trigger] xml_map()(x)).contains('<') && !xml_map()(x).contains('>')
        && !xml_map()(x).contains('"') && !xml_map()(x).contains('\'') by {
        let img = xml_char(x);
        if x == '&' || x == '<' || x == '>' || x == '"' || x == '\'' {
            assert forall|k: int| 0 <= k < img.len() implies img[k] != '<' && img[k] != '>'
                && img[k] != '"' && img[k] != '\'' by {}
        } else {
            assert(img =~= seq![x]);
        }
    }
    lemma_map_chars_excludes(value, xml_map(), '<');
    lemma_map_chars_excludes(value, xml_map(), '>');
    lemma_map_chars_excludes(value, xml_map(), '"');
    lemma_map_chars_excludes(value, xml_map(), '\'');
}

/// A GitHub-escaped value holds no carriage return, newline, `:` or `,`.
pub proof fn lemma_github_escape_is_inert(value: Seq<char>)
    ensures
        !map_chars(value, github_map()).contains('\r'),
        !map_chars(value, github_map()).contains('\n'),
        !map_chars(value, github_map()).contains(':'),
        !map_chars(value, github_map()).contains(','),
{
    reveal_strlit("%25");
    reveal_strlit("%0D");
    reveal_strlit("%0A");
    reveal_strlit("%3A");
    reveal_strlit("%2C");
    assert forall|x: char| !(#[trigger] github_map()(x)).contains('\r') && !github_map()(x).contains('\n')
        && !github_map()(x).contains(':') && !github_map()(x).contains(',') by {
        let img = github_char(x);
        if x == '%' || x == '\r' || x == '\n' || x == ':' || x == ',' {
            assert forall|k: int| 0 <= k < img.len() implies img[k] != '\r' && img[k] != '\n'
                && img[k] != ':' && img[k] != ',' by {}
        } else {
            assert(img =~= seq![x]);
        }
    }
    lemma_map_chars_excludes(value, github_map(), '\r');
    lemma_map_chars_excludes(value, github_map(), '\n');
    lemma_map_chars_excludes(value, github_map(), ':');
    lemma_map_chars_excludes(value, github_map(), ',');
}

/// A message made one line holds no newline or carriage return.
pub proof fn lemma_one_line_is_single_line(value: Seq<char>)
    ensures
        !map_chars(value, one_line_map()).contains('\n'),
        !map_chars(value, one_line_map()).contains('\r'),
{
    assert forall|x: char| !(#[trigger] one_line_map()(x)).contains('\n') && !one_line_map()(x).contains('\r') by {
        let img = one_line_char(x);
        if x == '\r' || x == '\n' {
            assert(img =~= seq![' ']);
        } else {
            assert(img =~= seq![x]);
        }
    }
    lemma_map_chars_excludes(value, one_line_map(), '\n');
    lemma_map_chars_excludes(value, one_line_map(), '\r');
}

impl AssessmentData {
    /// One line per issue (`code path: message`), or a success line when valid.
    pub fn to_text(&self) -> (result: String)
        ensures
            result@ == text_report(issue_views(self.issues@)),
    {
        if self.valid() {
            return owned("Camau assessment valid\n");
        }
        let ghost views = issue_views(self.issues@);
        let mut out = String::new();
        let mut i: usize = 0;
        while i < self.issues.len()
            invariant
                views == issue_views(self.issues@),
                i <= self.issues.len(),
                out@ == text_lines(views.take(i as int)),
            decreases self.issues.len() - i,
        {
            let issue = &self.issues[i];
            proof {
                lemma_views_step(self.issues@, i as int);
            }
            let ghost start = out@;
            out.append(issue.code.as_str());
            out.append(" ");
            if issue.path.as_str().is_empty() {
                out.append("/");
            } else {
                out.append(issue.path.as_str());
            }
            out.append(": ");
            push_one_line(&mut out, issue.message.as_str());
            out.append("\n");
            assert(out@ =~= start + text_line(views[i as int]));
            i = i + 1;
        }
        assert(views.take(self.issues.len() as int) =~= views);
        out
    }

    /// A JUnit XML document with one failing test case per issue.
    pub fn to_junit_xml(&self) -> (result: String)
        ensures
            result@ == junit_report(issue_views(self.issues@)),
    {
        if self.valid() {
            return owned("<?xml version=\"1.0\" encoding=\"UTF-8\"?><testsuite name=\"camau-assessment\" tests=\"1\" failures=\"0\"><testcase name=\"valid\"/></testsuite>");
        }
        let ghost views = issue_views(self.issues@);
        let mut out = owned("<?xml version=\"1.0\" encoding=\"UTF-8\"?><testsuite name=\"camau-assessment\" tests=\"");
        push_decimal(&mut out, self.issues.len());
        out.append("\" failures=\"");
        push_decimal(&mut out, self.issues.len());
        out.append("\">");
        let ghost header = out@;
        let mut i: usize = 0;
        while i < self.issues.len()
            invariant
                views == issue_views(self.issues@),
                i <= self.issues.len(),
                out@ == header + junit_cases(views.take(i as int)),
            decreases self.issues.len() - i,
        {
            let issue = &self.issues[i];
            proof {
                lemma_views_step(self.issues@, i as int);
            }
            let ghost start = out@;
            out.append("<testcase name=\"");
            push_xml(&mut out, issue.code.as_str());
            out.append(" ");
            push_xml(&mut out, issue.path.as_str());
            out.append("\"><failure type=\"");
            push_xml(&mut out, issue.code.as_str());
            out.append("\" message=\"");
            push_xml(&mut out, issue.message.as_str());
            out.append("\">");
            push_xml(&mut out, issue.message.as_str());
            out.append("</failure></testcase>");
            assert(out@ =~= start + junit_case(views[i as int]));
            i = i + 1;
        }
        assert(views.take(self.issues.len() as int) =~= views);
        out.append("</testsuite>");
        out
    }

    /// One GitHub workflow `error` command per issue, optionally naming the source file.
    pub fn to_github_annotations(&self, source: Option<&str>) -> (result: String)
        ensures
            result@ == github_report(issue_views(self.issues@), match source {
                Some(name) => Some(name@),
                None => None,
            }),
    {
        let ghost views = issue_views(self.issues@);
        let ghost src = match source {
            Some(name) => Some(name@),
            None => None,
        };
        let mut out = String::new();
        let mut i: usize = 0;
        while i < self.issues.len()
            invariant
                views == issue_views(self.issues@),
                i <= self.issues.len(),
                out@ == github_report(views.take(i as int), src),
                src == match source {
                    Some(name) => Some(name@),
                    None => None::<Seq<char>>,
                },
            decreases self.issues.len() - i,
        {
            let issue = &self.issues[i];
            proof {
                lemma_views_step(self.issues@, i as int);
            }
            let ghost start = out@;
            out.append("::error title=");
            push_github(&mut out, issue.code.as_str());
            match source {
                Some(name) => {
                    out.append(",file=");
                    push_github(&mut out, name);
                },
                None => {},
            }
            out.append("::");
            push_github(&mut out, issue.message.as_str());
            out.append(" at ");
            if issue.path.as_str().is_empty() {
                push_github(&mut out, "/");
            } else {
                push_github(&mut out, issue.path.as_str());
            }
            out.append("\n");
            assert(out@ =~= start + github_line(views[i as int], src));
            i = i + 1;
        }
        assert(views.take(self.issues.len() as int) =~= views);
        out
    }
}


/// The issues `f` finds for each element, with its index, in order.
pub open spec fn concat_indexed<T>(s: Seq<T>, f: spec_fn(int, T) -> Seq<IssueView>) -> Seq<IssueView>
    decreases s.len(),
{
    if s.len() == 0 {
        Seq::empty()
    } else {
        concat_indexed(s.drop_last(), f) + f(s.len() - 1, s.last())
    }
}

/// One more element extends the collected issues by that element's issues.
pub proof fn lemma_concat_indexed_step<T>(s: Seq<T>, i: int, f: spec_fn(int, T) -> Seq<IssueView>)
    requires
        0 <= i < s.len(),
    ensures
        concat_indexed(s.take(i + 1), f) == concat_indexed(s.take(i), f) + f(i, s[i]),
{
    assert(s.take(i + 1).drop_last() =~= s.take(i));
}

/// All elements collected.
pub proof fn lemma_concat_indexed_all<T>(s: Seq<T>, f: spec_fn(int, T) -> Seq<IssueView>)
    ensures
        concat_indexed(s.take(s.len() as int), f) == concat_indexed(s, f),
{
    assert(s.take(s.len() as int) =~= s);
}

/// Appends one issue.
pub fn push_issue(issues: &mut Vec<IssueData>, code: &str, path: String, message: &str)
    ensures
        issue_views(final(issues)@) == issue_views(old(issues)@).push((path@, code@, message@)),
{
    issues.push(issue(code, path, message));
    assert(issue_views(issues@) =~= issue_views(old(issues)@).push((path@, code@, message@)));
}

/// Appends one issue with an owned message.
pub fn push_issue_owned(issues: &mut Vec<IssueData>, code: &str, path: String, message: String)
    ensures
        issue_views(final(issues)@) == issue_views(old(issues)@).push((path@, code@, message@)),
{
    issues.push(IssueData::new(owned(code), path, message));
    assert(issue_views(issues@) =~= issue_views(old(issues)@).push((path@, code@, message@)));
}

} // verus!
