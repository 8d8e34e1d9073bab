//! Structural validation of deterministic-gate cases and of the `otherwise` placement.
use vstd::prelude::*;
use std::cmp::Ordering;

use super::{field, identifier_field_issues, property_issues, validate_identifier_field, validate_properties};
use super::mapping::lemma_member_wf;
use crate::diagnostics::{issue_views, push_issue, push_issue_owned, IssueData, IssueView};
use crate::graph::numbers::{compare_numbers, data_number, json_number, number_order};
use crate::json_value::{array_data, data_text, data_wf, member_contains, member_get, object_data, JsonData,
    JsonValue};
use crate::text::{concat, owned, push_decimal, text_eq, decimal};

verus! {

/// The allowed and required properties of a case with a supported operator.
pub open spec fn case_properties(op: Seq<char>) -> Option<Seq<Seq<char>>> {
    if op == "eq"@ || op == "lt"@ || op == "le"@ || op == "ge"@ || op == "gt"@ {
        Some(seq!["operator"@, "value"@, "target"@])
    } else if op == "in_range"@ {
        Some(seq!["operator"@, "lower"@, "upper"@, "target"@])
    } else if op == "in_set"@ {
        Some(seq!["operator"@, "values"@, "target"@])
    } else if op == "otherwise"@ {
        Some(seq!["operator"@, "target"@])
    } else {
        None
    }
}

/// Some string occurs twice in a list.
pub open spec fn has_repeated_text(items: Seq<JsonData>) -> bool {
    exists|i: int, j: int| 0 <= i < j < items.len() && #[trigger] items[i] == #[trigger] items[j]
}

/// Issues of the operator-specific values of a case.
pub open spec fn case_value_issues(c: Seq<(Seq<char>, JsonData)>, path: Seq<char>, op: Seq<char>) -> Seq<IssueView> {
    if op == "eq"@ {
        match field(c, "value"@) {
            Some(JsonData::Object(_)) | Some(JsonData::Array(_)) => seq![
                (path + "/value"@, "GATE_CASE"@, "eq requires a scalar value"@),
            ],
            _ => Seq::empty(),
        }
    } else if op == "lt"@ || op == "le"@ || op == "ge"@ || op == "gt"@ {
        if field(c, "value"@) is Some && data_number(field(c, "value"@)->Some_0) is None {
            seq![(path + "/value"@, "GATE_CASE"@, "numeric operator requires a number"@)]
        } else {
            Seq::empty()
        }
    } else if op == "in_range"@ {
        let lower = match field(c, "lower"@) {
            Some(d) => data_number(d),
            None => None,
        };
        let upper = match field(c, "upper"@) {
            Some(d) => data_number(d),
            None => None,
        };
        (if lower is None && field(c, "lower"@) is Some {
            seq![(path + "/lower"@, "GATE_CASE"@, "range lower bound must be a number"@)]
        } else {
            Seq::empty()
        }) + (if upper is None && field(c, "upper"@) is Some {
            seq![(path + "/upper"@, "GATE_CASE"@, "range upper bound must be a number"@)]
        } else {
            Seq::empty()
        }) + (if lower is Some && upper is Some && number_order(lower->Some_0, upper->Some_0) == Ordering::Greater {
            seq![(path + "/lower"@, "GATE_CASE"@, "range lower bound exceeds upper bound"@)]
        } else {
            Seq::empty()
        })
    } else if op == "in_set"@ {
        match field(c, "values"@) {
            Some(JsonData::Array(values)) => if values.len() == 0 || exists|i: int|
                0 <= i < values.len() && !(#[trigger] values[i] is Text) {
                seq![(path + "/values"@, "GATE_CASE"@, "in_set requires a non-empty string array"@)]
            } else if has_repeated_text(values) {
                seq![(path + "/values"@, "GATE_CASE"@, "in_set values must be unique"@)]
            } else {
                Seq::empty()
            },
            Some(_) => seq![(path + "/values"@, "GATE_CASE"@, "in_set values must be an array"@)],
            None => Seq::empty(),
        }
    } else {
        Seq::empty()
    }
}

/// The structural issues of one deterministic case at `path`.
pub open spec fn case_issues(value: JsonData, path: Seq<char>) -> Seq<IssueView> {
    match value {
        JsonData::Object(c) => if field(c, "operator"@) is None {
            seq![(path, "SCHEMA_REQUIRED"@, "required property \"operator\" is missing"@)]
        } else {
            match field(c, "operator"@) {
                Some(JsonData::Text(op)) => match case_properties(op) {
                    Some(props) => property_issues(c, path, props, props)
                        + identifier_field_issues(field(c, "target"@), path + "/target"@, true)
                        + case_value_issues(c, path, op),
                    None => seq![(path + "/operator"@, "GATE_CASE"@, "unsupported deterministic operator"@)],
                },
                _ => seq![(path + "/operator"@, "GATE_CASE"@, "operator must be a string"@)],
            }
        },
        _ => seq![(path, "SCHEMA_TYPE"@, "gate case must be an object"@)],
    }
}

/// Whether a case is an object whose operator is `otherwise`.
pub open spec fn is_otherwise(value: JsonData) -> bool {
    match value {
        JsonData::Object(c) => field(c, "operator"@) == Some(JsonData::Text("otherwise"@)),
        _ => false,
    }
}

/// The positions of the `otherwise` cases.
pub open spec fn otherwise_positions(cases: Seq<JsonData>) -> Seq<int>
    decreases cases.len(),
{
    if cases.len() == 0 {
        Seq::empty()
    } else {
        otherwise_positions(cases.drop_last()) + if is_otherwise(cases.last()) {
            seq![cases.len() - 1]
        } else {
            Seq::empty()
        }
    }
}

/// Exactly one `otherwise`, in last position.
pub open spec fn otherwise_issues(cases: Seq<JsonData>, path: Seq<char>) -> Seq<IssueView> {
    let positions = otherwise_positions(cases);
    if positions.len() != 1 {
        seq![(path, "GATE_OTHERWISE"@, "exactly one otherwise case is required"@)]
    } else if positions[0] + 1 != cases.len() {
        seq![(path + "/"@ + decimal(positions[0] as nat), "GATE_OTHERWISE"@, "otherwise must be the final case"@)]
    } else {
        Seq::empty()
    }
}

fn case_allowed(op: &str) -> (result: Option<&'static [&'static str]>)
    ensures
        match result {
            Some(list) => case_properties(op@) == Some(super::names(list@)),
            None => case_properties(op@) is None,
        },
{
    if text_eq(op, "eq") || text_eq(op, "lt") || text_eq(op, "le") || text_eq(op, "ge") || text_eq(op, "gt") {
        let list: &'static [&'static str] = &["operator", "value", "target"];
        assert(super::names(list@) =~= seq!["operator"@, "value"@, "target"@]);
        Some(list)
    } else if text_eq(op, "in_range") {
        let list: &'static [&'static str] = &["operator", "lower", "upper", "target"];
        assert(super::names(list@) =~= seq!["operator"@, "lower"@, "upper"@, "target"@]);
        Some(list)
    } else if text_eq(op, "in_set") {
        let list: &'static [&'static str] = &["operator", "values", "target"];
        assert(super::names(list@) =~= seq!["operator"@, "values"@, "target"@]);
        Some(list)
    } else if text_eq(op, "otherwise") {
        let list: &'static [&'static str] = &["operator", "target"];
        assert(super::names(list@) =~= seq!["operator"@, "target"@]);
        Some(list)
    } else {
        None
    }
}

/// Whether the items hold a non-string; whether two strings repeat.
fn text_list_checks(values: &Vec<JsonValue>) -> (result: (bool, bool))
    ensures
        result.0 == exists|i: int| 0 <= i < values.len() && !(#[trigger] array_data(*values)[i] is Text),
        !result.0 ==> result.1 == has_repeated_text(array_data(*values)),
{
    let ghost d = array_data(*values);
    let mut i: usize = 0;
    while i < values.len()
        invariant
            i <= values.len(),
            d == array_data(*values),
            d.len() == values.len(),
            forall|k: int| 0 <= k < i ==> #[trigger] d[k] is Text,
        decreases values.len() - i,
    {
        assert(d[i as int] == values[i as int]@);
        if values[i].string().is_none() {
            return (true, false);
        }
        i = i + 1;
    }
    let mut j: usize = 0;
    while j < values.len()
        invariant
            j <= values.len(),
            d == array_data(*values),
            d.len() == values.len(),
            forall|k: int| 0 <= k < d.len() ==> #[trigger] d[k] is Text,
            forall|a: int, b: int| 0 <= a < b < d.len() && a < j ==> #[trigger] d[a] != #[trigger] d[b],
        decreases values.len() - j,
    {
        let mut k: usize = j + 1;
        while k < values.len()
            invariant
                j < values.len(),
                j + 1 <= k <= values.len(),
                d == array_data(*values),
                d.len() == values.len(),
                forall|q: int| 0 <= q < d.len() ==> #[trigger] d[q] is Text,
                forall|b: int| j < b < k ==> d[j as int] != #[trigger] d[b],
            decreases values.len() - k,
        {
            assert(d[j as int] == values[j as int]@ && d[k as int] == values[k as int]@);
            let left = values[j].string().unwrap();
            let right = values[k].string().unwrap();
            if text_eq(left, right) {
                assert(d[j as int] == d[k as int]);
                return (false, true);
            }
            k = k + 1;
        }
        j = j + 1;
    }
    (false, false)
}

/// Reports the structural issues of one deterministic case.
pub fn validate_case(value: &JsonValue, path: String, issues: &mut Vec<IssueData>)
    requires
        value.wf(),
    ensures
        issue_views(final(issues)@) == issue_views(old(issues)@) + case_issues(value@, path@),
{
    let ghost start = issue_views(issues@);
    let case = match value.object() {
        Some(c) => c,
        None => {
            push_issue(issues, "SCHEMA_TYPE", path, "gate case must be an object");
            return;
        },
    };
    let ghost c = object_data(*case);
    if !member_contains(case, "operator") {
        push_issue(issues, "SCHEMA_REQUIRED", path, "required property \"operator\" is missing");
        return;
    }
    let operator = match member_get(case, "operator") {
        Some(op) => match op.string() {
            Some(op) => op,
            None => {
                push_issue(issues, "GATE_CASE", concat(path.as_str(), "/operator"), "operator must be a string");
                return;
            },
        },
        None => {
            return;
        },
    };
    let allowed = match case_allowed(operator) {
        Some(list) => list,
        None => {
            push_issue(issues, "GATE_CASE", concat(path.as_str(), "/operator"), "unsupported deterministic operator");
            return;
        },
    };
    validate_properties(case, path.as_str(), allowed, allowed, issues);
    validate_identifier_field(member_get(case, "target"), concat(path.as_str(), "/target"), true, issues);
    let ghost mid = issue_views(issues@);
    proof {
        lemma_member_wf(c, "value"@);
        lemma_member_wf(c, "lower"@);
        lemma_member_wf(c, "upper"@);
    }
    if text_eq(operator, "eq") {
        match member_get(case, "value") {
            Some(JsonValue::Object(_)) | Some(JsonValue::Array(_)) => {
                push_issue(issues, "GATE_CASE", concat(path.as_str(), "/value"), "eq requires a scalar value");
            },
            _ => {},
        }
    } else if text_eq(operator, "lt") || text_eq(operator, "le") || text_eq(operator, "ge") || text_eq(operator, "gt") {
        match member_get(case, "value") {
            Some(v) => {
                if json_number(v).is_none() {
                    push_issue(issues, "GATE_CASE", concat(path.as_str(), "/value"), "numeric operator requires a number");
                }
            },
            None => {},
        }
    } else if text_eq(operator, "in_range") {
        let lower = match member_get(case, "lower") {
            Some(v) => json_number(v),
            None => None,
        };
        let upper = match member_get(case, "upper") {
            Some(v) => json_number(v),
            None => None,
        };
        if lower.is_none() && member_contains(case, "lower") {
            push_issue(issues, "GATE_CASE", concat(path.as_str(), "/lower"), "range lower bound must be a number");
        }
        if upper.is_none() && member_contains(case, "upper") {
            push_issue(issues, "GATE_CASE", concat(path.as_str(), "/upper"), "range upper bound must be a number");
        }
        match (lower, upper) {
            (Some(l), Some(u)) => {
                match compare_numbers(l, u) {
                    Ordering::Greater => {
                        push_issue(issues, "GATE_CASE", concat(path.as_str(), "/lower"),
                            "range lower bound exceeds upper bound");
                    },
                    _ => {},
                }
            },
            _ => {},
        }
    } else if text_eq(operator, "in_set") {
        match member_get(case, "values") {
            Some(JsonValue::Array(values)) => {
                let (non_text, repeated) = text_list_checks(values);
                if values.len() == 0 || non_text {
                    push_issue(issues, "GATE_CASE", concat(path.as_str(), "/values"),
                        "in_set requires a non-empty string array");
                } else if repeated {
                    push_issue(issues, "GATE_CASE", concat(path.as_str(), "/values"), "in_set values must be unique");
                }
            },
            Some(_) => {
                push_issue(issues, "GATE_CASE", concat(path.as_str(), "/values"), "in_set values must be an array");
            },
            None => {},
        }
    }
    assert(issue_views(issues@) =~= start + case_issues(value@, path@));
}

/// Reports a missing, repeated or misplaced `otherwise`.
pub fn validate_otherwise(cases: &Vec<JsonValue>, path: &str, issues: &mut Vec<IssueData>)
    ensures
        issue_views(final(issues)@) == issue_views(old(issues)@) + otherwise_issues(array_data(*cases), path@),
{
    let ghost d = array_data(*cases);
    let mut positions: Vec<usize> = Vec::new();
    let mut i: usize = 0;
    while i < cases.len()
        invariant
            i <= cases.len(),
            d == array_data(*cases),
            d.len() == cases.len(),
            positions@.map_values(|p: usize| p as int) == otherwise_positions(d.take(i as int)),
            forall|k: int| 0 <= k < positions@.len() ==> #[trigger] positions@[k] < i,
        decreases cases.len() - i,
    {
        assert(d[i as int] == cases[i as int]@);
        assert(d.take(i + 1).drop_last() =~= d.take(i as int));
        let otherwise = match cases[i].object() {
            Some(c) => match member_get(c, "operator") {
                Some(op) => match op.string() {
                    Some(op) => text_eq(op, "otherwise"),
                    None => false,
                },
                None => false,
            },
            None => false,
        };
        proof {
            reveal_strlit("otherwise");
        }
        assert(otherwise == is_otherwise(d[i as int]));
        if otherwise {
            positions.push(i);
        }
        assert(positions@.map_values(|p: usize| p as int) =~= otherwise_positions(d.take(i + 1)));
        i = i + 1;
    }
    assert(d.take(cases.len() as int) =~= d);
    if positions.len() != 1 {
        push_issue(issues, "GATE_OTHERWISE", owned(path), "exactly one otherwise case is required");
    } else if positions[0] + 1 != cases.len() {
        let mut p = concat(path, "/");
        push_decimal(&mut p, positions[0]);
        push_issue(issues, "GATE_OTHERWISE", p, "otherwise must be the final case");
    } else {
        assert(issue_views(issues@) =~= issue_views(old(issues)@) + otherwise_issues(d, path@));
    }
}

} // verus!
