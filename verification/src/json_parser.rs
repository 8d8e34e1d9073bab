//! What parsing a specification reports besides its value: repeated object keys, and the
//! code of a parse failure.
use vstd::prelude::*;

use crate::diagnostics::{canonical_report, issue_views, AssessmentData, IssueData, IssueView};
use crate::graph::assessment_fits;
use crate::execution::mapping::{key_position, set_member, set_member_exec_pub};
use crate::json_value::{object_data, unique_keys, JsonData, JsonValue};
use crate::text::{chars_of, concat, debug_quoted, debug_text, owned, text_eq};

verus! {

/// A problem found while parsing: its code, the path of the value, and a message.
pub struct JsonProblem {
    pub code: String,
    pub path: String,
    pub message: String,
}

/// A problem as data.
pub open spec fn problem_view(p: JsonProblem) -> IssueView {
    (p.path@, p.code@, p.message@)
}

pub open spec fn problem_views(ps: Seq<JsonProblem>) -> Seq<IssueView> {
    ps.map_values(|p: JsonProblem| problem_view(p))
}

/// An object member as the parser met it: which object (by the order objects were opened),
/// the member's path, and its key.
pub type MemberEvent = (usize, Seq<char>, Seq<char>);

/// An earlier member of the same object has the same key.
pub open spec fn repeated(events: Seq<MemberEvent>, k: int) -> bool {
    exists|j: int| 0 <= j < k && #[trigger] events[j].0 == events[k].0 && events[j].2 == events[k].2
}

/// The problem for a member whose key repeats an earlier member's.
pub open spec fn duplicate_problem(e: MemberEvent) -> IssueView {
    (e.1, "JSON_DUPLICATE_KEY"@, "object key "@ + debug_text(e.2) + " is repeated"@)
}

/// The problems for the members, in the order met, that repeat a key of their object.
pub open spec fn duplicate_problems(events: Seq<MemberEvent>) -> Seq<IssueView>
    decreases events.len(),
{
    if events.len() == 0 {
        Seq::empty()
    } else {
        duplicate_problems(events.drop_last()) + if repeated(events, events.len() - 1) {
            seq![duplicate_problem(events.last())]
        } else {
            Seq::empty()
        }
    }
}

/// Member events as data.
pub open spec fn events_view(events: Seq<(usize, String, String)>) -> Seq<MemberEvent> {
    events.map_values(|e: (usize, String, String)| (e.0, e.1@, e.2@))
}

/// Reports every member whose key repeats an earlier key of the same object, in the order
/// the members were met.
pub fn duplicate_key_problems(events: &Vec<(usize, String, String)>) -> (result: Vec<JsonProblem>)
    ensures
        problem_views(result@) == duplicate_problems(events_view(events@)),
{
    let ghost ev = events_view(events@);
    let mut out: Vec<JsonProblem> = Vec::new();
    let mut k: usize = 0;
    while k < events.len()
        invariant
            k <= events.len(),
            ev == events_view(events@),
            ev.len() == events.len(),
            problem_views(out@) == duplicate_problems(ev.take(k as int)),
        decreases events.len() - k,
    {
        assert(ev.take(k + 1).drop_last() =~= ev.take(k as int));
        assert(ev[k as int] == (events[k as int].0, events[k as int].1@, events[k as int].2@));
        let mut seen = false;
        let mut j: usize = 0;
        while j < k && !seen
            invariant
                j <= k < events.len(),
                ev == events_view(events@),
                ev.len() == events.len(),
                seen ==> repeated(ev.take(k + 1), k as int),
                !seen ==> forall|q: int| 0 <= q < j ==> !(#[trigger] ev[q].0 == ev[k as int].0 && ev[q].2 == ev[k as int].2),
            decreases k - j, if seen { 0int } else { 1int },
        {
            assert(ev[j as int] == (events[j as int].0, events[j as int].1@, events[j as int].2@));
            if events[j].0 == events[k].0 && text_eq(events[j].2.as_str(), events[k].2.as_str()) {
                assert(ev.take(k + 1)[j as int] == ev[j as int]);
                assert(ev.take(k + 1)[k as int] == ev[k as int]);
                assert(ev.take(k + 1)[j as int].0 == ev.take(k + 1)[k as int].0 && ev.take(k + 1)[j as int].2 == ev.take(k + 1)[k as int].2);
                seen = true;
            } else {
                j = j + 1;
            }
        }
        proof {
            if !seen {
                assert forall|q: int| 0 <= q < k implies !(#[trigger] ev.take(k + 1)[q].0 == ev.take(k + 1)[k as int].0
                    && ev.take(k + 1)[q].2 == ev.take(k + 1)[k as int].2) by {
                    assert(ev.take(k + 1)[q] == ev[q]);
                }
            }
        }
        if seen {
            let mut message = owned("object key ");
            message = concat(message.as_str(), debug_quoted(events[k].2.as_str()).as_str());
            message = concat(message.as_str(), " is repeated");
            let ghost before = out@;
            out.push(JsonProblem { code: owned("JSON_DUPLICATE_KEY"), path: events[k].1.clone(), message });
            assert(problem_views(out@) =~= problem_views(before).push(duplicate_problem(ev[k as int])));
        }
        assert(problem_views(out@) =~= duplicate_problems(ev.take(k + 1)));
        k = k + 1;
    }
    assert(ev.take(events.len() as int) =~= ev);
    out
}

/// Where a key stands among the members, if anywhere.
proof fn lemma_key_found(ms: Seq<(Seq<char>, JsonData)>, key: Seq<char>)
    ensures
        match key_position(ms, key) {
            Some(i) => 0 <= i < ms.len() && ms[i].0 == key,
            None => forall|k: int| 0 <= k < ms.len() ==> (#[trigger] ms[k]).0 != key,
        },
    decreases ms.len(),
{
    if ms.len() > 0 && ms[0].0 != key {
        lemma_key_found(ms.drop_first(), key);
        assert forall|k: int| 0 < k < ms.len() implies (#[trigger] ms[k]).0 == ms.drop_first()[k - 1].0 by {}
    }
}

/// Adds a member to an object as it is parsed: a repeated key keeps its place and takes the
/// new value, so keys stay distinct.
pub fn insert_member(members: &mut Vec<(String, JsonValue)>, key: &str, value: JsonValue)
    ensures
        object_data(*final(members)) == set_member(object_data(*old(members)), key@, value@),
        unique_keys(object_data(*old(members))) ==> unique_keys(object_data(*final(members))),
{
    let ghost before = object_data(*members);
    let ghost v = value@;
    set_member_exec_pub(members, key, value);
    proof {
        lemma_key_found(before, key@);
        let after = set_member(before, key@, v);
        if unique_keys(before) {
            assert forall|i: int, j: int| 0 <= i < j < after.len() implies #[trigger] after[i].0 != #[trigger] after[j].0 by {
                match key_position(before, key@) {
                    Some(p) => {
                        assert(after[i].0 == before[i].0 && after[j].0 == before[j].0);
                    },
                    None => {
                        if j == before.len() {
                            assert(after[i] == before[i]);
                        } else {
                            assert(after[i] == before[i] && after[j] == before[j]);
                        }
                    },
                }
            }
        }
    }
}

/// A character that can continue an identifier: an ASCII letter or digit, or `_`.
pub open spec fn identifier_char(c: char) -> bool {
    ('a' <= c && c <= 'z') || ('A' <= c && c <= 'Z') || ('0' <= c && c <= '9') || c == '_'
}

/// Whether a byte continues an identifier.
pub fn is_identifier_byte(c: char) -> (result: bool)
    ensures
        result == identifier_char(c),
{
    ('a' <= c && c <= 'z') || ('A' <= c && c <= 'Z') || ('0' <= c && c <= '9') || c == '_'
}

/// `token` stands at position `i` of `s`, not inside a longer identifier.
pub open spec fn bare_token_at(s: Seq<char>, i: int, token: Seq<char>) -> bool {
    &&& i + token.len() <= s.len()
    &&& s.subrange(i, i + token.len()) == token
    &&& (i == 0 || !identifier_char(s[i - 1]))
    &&& (i + token.len() >= s.len() || !identifier_char(s[i + token.len()]))
}

/// A non-finite literal (`NaN`, `Infinity`, `-Infinity`) stands bare at position `i`.
pub open spec fn nonfinite_at(s: Seq<char>, i: int) -> bool {
    bare_token_at(s, i, "NaN"@) || bare_token_at(s, i, "Infinity"@) || bare_token_at(s, i, "-Infinity"@)
}

/// Scans from position `i`, inside a string or not and after an escape or not: whether a
/// non-finite literal stands outside strings from there on.
pub open spec fn scan_nonfinite(s: Seq<char>, i: int, in_string: bool, escaped: bool) -> bool
    decreases s.len() - i,
{
    if i < 0 || i >= s.len() {
        false
    } else if in_string {
        if escaped {
            scan_nonfinite(s, i + 1, true, false)
        } else if s[i] == '\\' {
            scan_nonfinite(s, i + 1, true, true)
        } else if s[i] == '"' {
            scan_nonfinite(s, i + 1, false, false)
        } else {
            scan_nonfinite(s, i + 1, true, false)
        }
    } else if s[i] == '"' {
        scan_nonfinite(s, i + 1, true, false)
    } else {
        nonfinite_at(s, i) || scan_nonfinite(s, i + 1, false, false)
    }
}

fn token_at(s: &Vec<char>, i: usize, token: &str) -> (result: bool)
    requires
        i < s.len(),
    ensures
        result == bare_token_at(s@, i as int, token@),
{
    let t = chars_of(token);
    if t.len() > s.len() - i {
        return false;
    }
    let mut k: usize = 0;
    while k < t.len()
        invariant
            k <= t.len(),
            t@ == token@,
            i + t.len() <= s.len(),
            forall|q: int| 0 <= q < k ==> s@[i + q] == t@[q],
        decreases t.len() - k,
    {
        if s[i + k] != t[k] {
            assert(s@.subrange(i as int, i + t.len())[k as int] != t@[k as int]);
            return false;
        }
        k = k + 1;
    }
    assert(s@.subrange(i as int, i + t.len()) =~= t@);
    let before_ok = i == 0 || !is_identifier_byte(s[i - 1]);
    let after = i + t.len();
    let after_ok = after >= s.len() || !is_identifier_byte(s[after]);
    before_ok && after_ok
}

/// Whether the source holds a non-finite literal outside strings.
pub fn contains_nonfinite_literal(source: &str) -> (result: bool)
    ensures
        result == scan_nonfinite(source@, 0, false, false),
{
    let s = chars_of(source);
    let mut in_string = false;
    let mut escaped = false;
    let mut index: usize = 0;
    while index < s.len()
        invariant
            index <= s.len(),
            s@ == source@,
            scan_nonfinite(s@, 0, false, false) == scan_nonfinite(s@, index as int, in_string, escaped),
            !in_string ==> !escaped,
        decreases s.len() - index,
    {
        let c = s[index];
        if in_string {
            if escaped {
                escaped = false;
            } else if c == '\\' {
                escaped = true;
            } else if c == '"' {
                in_string = false;
            }
            index = index + 1;
            continue;
        }
        if c == '"' {
            in_string = true;
            index = index + 1;
            continue;
        }
        if token_at(&s, index, "NaN") || token_at(&s, index, "Infinity") || token_at(&s, index, "-Infinity") {
            return true;
        }
        index = index + 1;
    }
    false
}

/// Whether `text` contains `part`.
pub fn contains_text(text: &str, part: &str) -> (result: bool)
    ensures
        result == exists|i: int| 0 <= i && i + part@.len() <= text@.len() && #[trigger] text@.subrange(i, i + part@.len()) == part@,
{
    let s = chars_of(text);
    let p = chars_of(part);
    if p.len() > s.len() {
        return false;
    }
    if p.len() == 0 {
        assert(text@.subrange(0int, 0int + part@.len()) =~= part@);
        return true;
    }
    let mut i: usize = 0;
    while i <= s.len() - p.len()
        invariant
            s@ == text@,
            p@ == part@,
            1 <= p.len() <= s.len(),
            i <= s.len() - p.len() + 1,
            forall|q: int| 0 <= q < i ==> #[trigger] s@.subrange(q, q + p.len()) != p@,
        decreases s.len() - p.len() + 1 - i,
    {
        let mut k: usize = 0;
        let mut same = true;
        while k < p.len() && same
            invariant
                k <= p.len(),
                i + p.len() <= s.len(),
                same ==> forall|q: int| 0 <= q < k ==> s@[i + q] == p@[q],
                !same ==> s@.subrange(i as int, i + p.len()) != p@,
            decreases p.len() - k, if same { 1int } else { 0int },
        {
            if s[i + k] != p[k] {
                assert(s@.subrange(i as int, i + p.len())[k as int] != p@[k as int]);
                same = false;
            } else {
                k = k + 1;
            }
        }
        if same {
            assert(text@.subrange(i as int, i + part@.len()) =~= part@);
            return true;
        }
        i = i + 1;
    }
    false
}

/// The code of a parse failure: a value out of range or a non-finite literal, else a syntax
/// problem.
pub fn failure_code(message: &str, source: &str) -> (result: &'static str)
    ensures
        result@ == if (exists|i: int| 0 <= i && i + "number out of range"@.len() <= message@.len()
            && #[trigger] message@.subrange(i, i + "number out of range"@.len()) == "number out of range"@)
            || scan_nonfinite(source@, 0, false, false) {
            "JSON_VALUE"@
        } else {
            "JSON_PARSE"@
        },
{
    if contains_text(message, "number out of range") || contains_nonfinite_literal(source) {
        "JSON_VALUE"
    } else {
        "JSON_PARSE"
    }
}

/// The assessment of a parsed specification: the parse problems, then, when there is a value,
/// its structural and semantic issues, in canonical order.
pub fn assess_parsed(value: Option<&JsonValue>, problems: &Vec<JsonProblem>) -> (result: AssessmentData)
    requires
        value is Some ==> value->0.wf(),
    ensures
        match value {
            Some(v) => exists|found: Seq<IssueView>| #[trigger] assessment_fits(v@, found)
                && canonical_report(problem_views(problems@) + found, issue_views(result.issues@)),
            None => canonical_report(problem_views(problems@), issue_views(result.issues@)),
        },
{
    let mut issues: Vec<IssueData> = Vec::new();
    let mut k: usize = 0;
    while k < problems.len()
        invariant
            k <= problems.len(),
            issue_views(issues@) == problem_views(problems@).take(k as int),
        decreases problems.len() - k,
    {
        let ghost before = issue_views(issues@);
        issues.push(IssueData::new(problems[k].code.clone(), problems[k].path.clone(), problems[k].message.clone()));
        assert(issue_views(issues@) =~= before.push(problem_view(problems@[k as int])));
        assert(problem_views(problems@).take(k + 1) =~= problem_views(problems@).take(k as int).push(problem_view(problems@[k as int])));
        k = k + 1;
    }
    assert(problem_views(problems@).take(problems.len() as int) =~= problem_views(problems@));
    match value {
        Some(v) => {
            let ghost before = issue_views(issues@);
            let mut found = crate::graph::assess(v);
            let ghost found_views = issue_views(found@);
            issues.append(&mut found);
            assert(issue_views(issues@) =~= before + found_views);
            let result = AssessmentData::new(issues);
            assert(assessment_fits(v@, found_views));
            result
        },
        None => AssessmentData::new(issues),
    }
}

} // verus!
