//! Structural validation of one node, by node type.
use vstd::prelude::*;

use super::{field, identifier_field_issues, identifier_text_issues, missing_property, names, property_issues,
    required_fn, validate_identifier_field, validate_identifier_text, validate_optional_identifier,
    validate_pointer_field, validate_properties, pointer_field_issues};
use super::gate::{case_issues, otherwise_issues, validate_case, validate_otherwise};
use super::mapping::{lemma_member_wf, mapping_issues, validate_mapping};
use crate::diagnostics::{concat_indexed, issue_views, lemma_concat_indexed_all, lemma_concat_indexed_step,
    push_issue, IssueData, IssueView};
use crate::graph::numbers::{data_number, is_positive_number, scaled};
use crate::json_pointer::{joined, join_pointer};
use crate::json_value::{array_data, data_text, data_wf, member_contains, member_get, object_data, JsonData,
    JsonValue};
use crate::text::{concat, decimal, node_path, node_path_string, owned, push_decimal, text_eq};

verus! {

/// `path` followed by `/{index}`.
pub open spec fn indexed(path: Seq<char>, index: int) -> Seq<char> {
    path + "/"@ + decimal(index as nat)
}

pub fn indexed_string(path: &str, index: usize) -> (result: String)
    ensures
        result@ == indexed(path@, index as int),
{
    let mut out = concat(path, "/");
    push_decimal(&mut out, index);
    out
}

pub open spec fn mapping_fn(path: Seq<char>) -> spec_fn(int, JsonData) -> Seq<IssueView> {
    |k: int, m: JsonData| mapping_issues(m, indexed(path + "/mappings"@, k))
}

pub open spec fn case_fn(path: Seq<char>) -> spec_fn(int, JsonData) -> Seq<IssueView> {
    |k: int, c: JsonData| case_issues(c, indexed(path + "/cases"@, k))
}

/// Whether an earlier route is an object naming `target`.
pub open spec fn target_seen(earlier: Seq<JsonData>, target: Seq<char>) -> bool {
    exists|j: int| 0 <= j < earlier.len() && #[trigger] route_target(earlier[j]) == Some(target)
}

/// The target a route names, when it is an object with a string target.
pub open spec fn route_target(route: JsonData) -> Option<Seq<char>> {
    match route {
        JsonData::Object(r) => match field(r, "target"@) {
            Some(JsonData::Text(t)) => Some(t),
            _ => None,
        },
        _ => None,
    }
}

/// A route weight must be a finite positive number.
pub open spec fn weight_issues(weight: Option<JsonData>, path: Seq<char>) -> Seq<IssueView> {
    match weight {
        Some(w) => match data_number(w) {
            Some(n) => if scaled(n) > 0 {
                Seq::empty()
            } else {
                seq![(path + "/weight"@, "RANDOM_WEIGHT"@, "weight must be finite and positive"@)]
            },
            None => seq![(path + "/weight"@, "RANDOM_WEIGHT"@, "weight must be a number"@)],
        },
        None => Seq::empty(),
    }
}

/// The issues of one randomised route, given the routes before it.
pub open spec fn route_issues(route: JsonData, path: Seq<char>, earlier: Seq<JsonData>) -> Seq<IssueView> {
    match route {
        JsonData::Object(r) => property_issues(r, path, seq!["weight"@, "target"@], seq!["weight"@, "target"@])
            + weight_issues(field(r, "weight"@), path)
            + identifier_field_issues(field(r, "target"@), path + "/target"@, true)
            + match field(r, "target"@) {
                Some(JsonData::Text(t)) => if target_seen(earlier, t) {
                    seq![(path + "/target"@, "RANDOM_TARGET"@, "randomised target is repeated"@)]
                } else {
                    Seq::empty()
                },
                _ => Seq::empty(),
            },
        _ => seq![(path, "SCHEMA_TYPE"@, "route must be an object"@)],
    }
}

pub open spec fn route_fn(path: Seq<char>, routes: Seq<JsonData>) -> spec_fn(int, JsonData) -> Seq<IssueView> {
    |k: int, r: JsonData| route_issues(r, indexed(path + "/routes"@, k), routes.take(k))
}

/// The issues of one fan-out branch.
pub open spec fn branch_issues(branch: JsonData, path: Seq<char>) -> Seq<IssueView> {
    match branch {
        JsonData::Object(b) => property_issues(b, path, seq!["id"@, "target"@], seq!["id"@, "target"@])
            + identifier_field_issues(field(b, "id"@), path + "/id"@, true)
            + identifier_field_issues(field(b, "target"@), path + "/target"@, true),
        _ => seq![(path, "SCHEMA_TYPE"@, "branch must be an object"@)],
    }
}

pub open spec fn branch_fn(path: Seq<char>) -> spec_fn(int, JsonData) -> Seq<IssueView> {
    |k: int, b: JsonData| branch_issues(b, indexed(path + "/branches"@, k))
}

/// The issues of one convergence input: its flow ID and its source identifier.
pub open spec fn input_issues(input: (Seq<char>, JsonData), path: Seq<char>) -> Seq<IssueView> {
    identifier_text_issues(input.0, joined(path + "/inputs"@, input.0), true)
        + identifier_field_issues(Some(input.1), joined(path + "/inputs"@, input.0), true)
}

pub open spec fn input_fn(path: Seq<char>) -> spec_fn(int, (Seq<char>, JsonData)) -> Seq<IssueView> {
    |k: int, m: (Seq<char>, JsonData)| input_issues(m, path)
}

/// A list-valued property: its size check and each element's issues, or a type issue.
pub open spec fn list_issues(
    value: Option<JsonData>,
    path: Seq<char>,
    min: int,
    short_code: Seq<char>,
    short_message: Seq<char>,
    type_message: Seq<char>,
    each: spec_fn(int, JsonData) -> Seq<IssueView>,
) -> Seq<IssueView> {
    match value {
        Some(JsonData::Array(items)) => (if items.len() < min {
            seq![(path, short_code, short_message)]
        } else {
            Seq::empty()
        }) + concat_indexed(items, each),
        Some(_) => seq![(path, "SCHEMA_TYPE"@, type_message)],
        None => Seq::empty(),
    }
}

/// A task node: its properties, task name and optional `next`.
pub open spec fn task_issues(n: Seq<(Seq<char>, JsonData)>, path: Seq<char>) -> Seq<IssueView> {
    property_issues(n, path, seq!["id"@, "type"@, "task"@, "next"@], seq!["id"@, "type"@, "task"@])
        + identifier_field_issues(field(n, "task"@), path + "/task"@, false)
        + identifier_field_issues(field(n, "next"@), path + "/next"@, true)
}

/// A map-schema node: its properties, optional `next` and mappings.
pub open spec fn map_issues(n: Seq<(Seq<char>, JsonData)>, path: Seq<char>) -> Seq<IssueView> {
    property_issues(n, path, seq!["id"@, "type"@, "mappings"@, "next"@], seq!["id"@, "type"@, "mappings"@])
        + identifier_field_issues(field(n, "next"@), path + "/next"@, true)
        + list_issues(field(n, "mappings"@), path + "/mappings"@, 1, "SCHEMA_VALUE"@,
            "mappings must not be empty"@, "mappings must be an array"@, mapping_fn(path))
}

/// The cases of a deterministic gate and the placement of `otherwise`.
pub open spec fn cases_issues(cases: Option<JsonData>, path: Seq<char>) -> Seq<IssueView> {
    list_issues(cases, path + "/cases"@, 2, "GATE_CASE"@, "deterministic gate requires at least two cases"@,
        "cases must be an array"@, case_fn(path)) + match cases {
        Some(JsonData::Array(items)) => otherwise_issues(items, path + "/cases"@),
        _ => Seq::empty(),
    }
}

/// A deterministic gate: its properties, selector and cases.
pub open spec fn deterministic_issues(n: Seq<(Seq<char>, JsonData)>, path: Seq<char>) -> Seq<IssueView> {
    property_issues(n, path, seq!["id"@, "type"@, "select"@, "cases"@], seq!["id"@, "type"@, "select"@, "cases"@])
        + pointer_field_issues(field(n, "select"@), path + "/select"@, true)
        + cases_issues(field(n, "cases"@), path)
}

/// The routes of a randomised gate.
pub open spec fn routes_issues(routes: Option<JsonData>, path: Seq<char>) -> Seq<IssueView> {
    match routes {
        Some(JsonData::Array(items)) => list_issues(routes, path + "/routes"@, 2, "SCHEMA_VALUE"@,
            "randomised gate requires at least two routes"@, "routes must be an array"@, route_fn(path, items)),
        Some(_) => seq![(path + "/routes"@, "SCHEMA_TYPE"@, "routes must be an array"@)],
        None => Seq::empty(),
    }
}

/// A randomised gate: its properties and routes.
pub open spec fn randomised_issues(n: Seq<(Seq<char>, JsonData)>, path: Seq<char>) -> Seq<IssueView> {
    property_issues(n, path, seq!["id"@, "type"@, "routes"@], seq!["id"@, "type"@, "routes"@])
        + routes_issues(field(n, "routes"@), path)
}

/// A fan-out: its properties and branches.
pub open spec fn fan_out_issues(n: Seq<(Seq<char>, JsonData)>, path: Seq<char>) -> Seq<IssueView> {
    property_issues(n, path, seq!["id"@, "type"@, "branches"@], seq!["id"@, "type"@, "branches"@])
        + list_issues(field(n, "branches"@), path + "/branches"@, 2, "SCHEMA_VALUE"@,
            "fan-out requires at least two branches"@, "branches must be an array"@, branch_fn(path))
}

/// The inputs of a convergence.
pub open spec fn inputs_issues(inputs: Option<JsonData>, path: Seq<char>) -> Seq<IssueView> {
    match inputs {
        Some(JsonData::Object(items)) => (if items.len() < 2 {
            seq![(path + "/inputs"@, "SCHEMA_VALUE"@, "converge requires at least two inputs"@)]
        } else {
            Seq::empty()
        }) + concat_indexed(items, input_fn(path)),
        Some(_) => seq![(path + "/inputs"@, "SCHEMA_TYPE"@, "inputs must be an object"@)],
        None => Seq::empty(),
    }
}

/// A convergence: its properties, optional `next` and inputs.
pub open spec fn converge_issues(n: Seq<(Seq<char>, JsonData)>, path: Seq<char>) -> Seq<IssueView> {
    property_issues(n, path, seq!["id"@, "type"@, "inputs"@, "next"@], seq!["id"@, "type"@, "inputs"@])
        + identifier_field_issues(field(n, "next"@), path + "/next"@, true)
        + inputs_issues(field(n, "inputs"@), path)
}

/// A raise-error node: its properties and non-empty message.
pub open spec fn raise_issues(n: Seq<(Seq<char>, JsonData)>, path: Seq<char>) -> Seq<IssueView> {
    property_issues(n, path, seq!["id"@, "type"@, "message"@], seq!["id"@, "type"@, "message"@])
        + match field(n, "message"@) {
            Some(JsonData::Text(m)) => if m.len() == 0 {
                seq![(path + "/message"@, "SCHEMA_VALUE"@, "message must not be empty"@)]
            } else {
                Seq::empty()
            },
            Some(_) => seq![(path + "/message"@, "SCHEMA_TYPE"@, "message must be a string"@)],
            None => Seq::empty(),
        }
}

/// The type-specific issues of a node whose `type` is the string `kind`.
pub open spec fn kind_issues(n: Seq<(Seq<char>, JsonData)>, path: Seq<char>, kind: Seq<char>) -> Seq<IssueView> {
    if kind == "task"@ {
        task_issues(n, path)
    } else if kind == "map-schema"@ {
        map_issues(n, path)
    } else if kind == "deterministic-gate"@ {
        deterministic_issues(n, path)
    } else if kind == "randomised-gate"@ {
        randomised_issues(n, path)
    } else if kind == "fan-out"@ {
        fan_out_issues(n, path)
    } else if kind == "converge"@ {
        converge_issues(n, path)
    } else if kind == "raise-error"@ {
        raise_issues(n, path)
    } else {
        seq![(path + "/type"@, "SCHEMA_VALUE"@, "unsupported node type"@)]
    }
}

/// The structural issues of node `index`.
pub open spec fn node_issues(value: JsonData, index: int) -> Seq<IssueView> {
    let path = node_path(index);
    match value {
        JsonData::Object(n) => concat_indexed(seq!["id"@, "type"@], required_fn(n, path))
            + identifier_field_issues(field(n, "id"@), path + "/id"@, true)
            + match field(n, "type"@) {
                Some(JsonData::Text(kind)) => kind_issues(n, path, kind),
                Some(_) => seq![(path + "/type"@, "SCHEMA_TYPE"@, "node type must be a string"@)],
                None => Seq::empty(),
            },
        _ => seq![(path, "SCHEMA_TYPE"@, "node must be an object"@)],
    }
}

} // verus!

verus! {

fn validate_mapping_list(value: Option<&JsonValue>, path: &str, issues: &mut Vec<IssueData>)
    requires
        value matches Some(v) ==> v.wf(),
    ensures
        issue_views(final(issues)@) == issue_views(old(issues)@) + list_issues(crate::json_value::opt_data(value),
            path@ + "/mappings"@, 1, "SCHEMA_VALUE"@, "mappings must not be empty"@, "mappings must be an array"@,
            mapping_fn(path@)),
{
    let ghost start = issue_views(issues@);
    let list_path = concat(path, "/mappings");
    match value {
        Some(JsonValue::Array(items)) => {
            let ghost d = array_data(*items);
            if items.len() < 1 {
                push_issue(issues, "SCHEMA_VALUE", list_path.clone(), "mappings must not be empty");
            }
            let ghost mid = issue_views(issues@);
            let mut i: usize = 0;
            while i < items.len()
                invariant
                    i <= items.len(),
                    d == array_data(*items),
                    d.len() == items.len(),
                    data_wf(JsonData::Array(d)),
                    list_path@ == path@ + "/mappings"@,
                    issue_views(issues@) == mid + concat_indexed(d.take(i as int), mapping_fn(path@)),
                decreases items.len() - i,
            {
                proof {
                    lemma_concat_indexed_step(d, i as int, mapping_fn(path@));
                }
                assert(d[i as int] == items[i as int]@);
                assert(data_wf(d[i as int]));
                validate_mapping(&items[i], indexed_string(list_path.as_str(), i), issues);
                assert(issue_views(issues@) =~= mid + concat_indexed(d.take(i + 1), mapping_fn(path@)));
                i = i + 1;
            }
            proof {
                lemma_concat_indexed_all(d, mapping_fn(path@));
            }
            assert(issue_views(issues@) =~= start + list_issues(crate::json_value::opt_data(value), path@ + "/mappings"@, 1,
                "SCHEMA_VALUE"@, "mappings must not be empty"@, "mappings must be an array"@, mapping_fn(path@)));
        },
        Some(_) => {
            push_issue(issues, "SCHEMA_TYPE", list_path, "mappings must be an array");
        },
        None => {
            assert(issue_views(issues@) =~= start + Seq::<IssueView>::empty());
        },
    }
}

fn validate_case_list(value: Option<&JsonValue>, path: &str, issues: &mut Vec<IssueData>)
    requires
        value matches Some(v) ==> v.wf(),
    ensures
        issue_views(final(issues)@) == issue_views(old(issues)@) + list_issues(crate::json_value::opt_data(value),
            path@ + "/cases"@, 2, "GATE_CASE"@, "deterministic gate requires at least two cases"@,
            "cases must be an array"@, case_fn(path@)) + match crate::json_value::opt_data(value) {
                Some(JsonData::Array(cases)) => otherwise_issues(cases, path@ + "/cases"@),
                _ => Seq::empty(),
            },
{
    let ghost start = issue_views(issues@);
    let list_path = concat(path, "/cases");
    match value {
        Some(JsonValue::Array(items)) => {
            let ghost d = array_data(*items);
            if items.len() < 2 {
                push_issue(issues, "GATE_CASE", list_path.clone(), "deterministic gate requires at least two cases");
            }
            let ghost mid = issue_views(issues@);
            let mut i: usize = 0;
            while i < items.len()
                invariant
                    i <= items.len(),
                    d == array_data(*items),
                    d.len() == items.len(),
                    data_wf(JsonData::Array(d)),
                    list_path@ == path@ + "/cases"@,
                    issue_views(issues@) == mid + concat_indexed(d.take(i as int), case_fn(path@)),
                decreases items.len() - i,
            {
                proof {
                    lemma_concat_indexed_step(d, i as int, case_fn(path@));
                }
                assert(d[i as int] == items[i as int]@);
                assert(data_wf(d[i as int]));
                validate_case(&items[i], indexed_string(list_path.as_str(), i), issues);
                assert(issue_views(issues@) =~= mid + concat_indexed(d.take(i + 1), case_fn(path@)));
                i = i + 1;
            }
            proof {
                lemma_concat_indexed_all(d, case_fn(path@));
            }
            validate_otherwise(items, list_path.as_str(), issues);
            assert(issue_views(issues@) =~= start + list_issues(crate::json_value::opt_data(value), path@ + "/cases"@, 2,
                "GATE_CASE"@, "deterministic gate requires at least two cases"@, "cases must be an array"@,
                case_fn(path@)) + otherwise_issues(d, path@ + "/cases"@));
        },
        Some(_) => {
            push_issue(issues, "SCHEMA_TYPE", list_path, "cases must be an array");
        },
        None => {
            assert(issue_views(issues@) =~= start + Seq::<IssueView>::empty());
        },
    }
}

fn route_target_of(route: &JsonValue) -> (result: Option<&str>)
    ensures
        match result {
            Some(t) => route_target(route@) == Some(t@),
            None => route_target(route@) is None,
        },
{
    match route.object() {
        Some(r) => match member_get(r, "target") {
            Some(t) => t.string(),
            None => None,
        },
        None => None,
    }
}

fn validate_route(routes: &Vec<JsonValue>, i: usize, path: String, issues: &mut Vec<IssueData>)
    requires
        i < routes.len(),
        data_wf(routes[i as int]@),
    ensures
        issue_views(final(issues)@) == issue_views(old(issues)@) + route_issues(routes[i as int]@, path@,
            array_data(*routes).take(i as int)),
{
    let ghost start = issue_views(issues@);
    let ghost d = array_data(*routes);
    let route = &routes[i];
    let r = match route.object() {
        Some(r) => r,
        None => {
            push_issue(issues, "SCHEMA_TYPE", path, "route must be an object");
            return;
        },
    };
    let ghost rd = object_data(*r);
    {
        let allowed: &[&str] = &["weight", "target"];
        let required: &[&str] = &["weight", "target"];
        assert(super::names(allowed@) =~= seq!["weight"@, "target"@]);
        assert(super::names(required@) =~= seq!["weight"@, "target"@]);
        validate_properties(r, path.as_str(), allowed, required, issues);
    }
    proof {
        lemma_member_wf(rd, "weight"@);
    }
    let ghost a = issue_views(issues@);
    match member_get(r, "weight") {
        Some(w) => match crate::graph::numbers::json_number(w) {
            Some(n) => {
                if !is_positive_number(n) {
                    push_issue(issues, "RANDOM_WEIGHT", concat(path.as_str(), "/weight"), "weight must be finite and positive");
                }
            },
            None => {
                push_issue(issues, "RANDOM_WEIGHT", concat(path.as_str(), "/weight"), "weight must be a number");
            },
        },
        None => {},
    }
    assert(issue_views(issues@) =~= a + weight_issues(field(rd, "weight"@), path@));
    validate_identifier_field(member_get(r, "target"), concat(path.as_str(), "/target"), true, issues);
    let ghost b = issue_views(issues@);
    match member_get(r, "target") {
        Some(JsonValue::String(t)) => {
            let mut seen = false;
            let mut j: usize = 0;
            while j < i
                invariant
                    j <= i,
                    i < routes.len(),
                    d == array_data(*routes),
                    d.len() == routes.len(),
                    !seen ==> forall|k: int| 0 <= k < j ==> #[trigger] route_target(d[k]) != Some(t@),
                    seen ==> target_seen(d.take(i as int), t@),
                decreases i - j,
            {
                assert(d[j as int] == routes[j as int]@);
                if !seen {
                    match route_target_of(&routes[j]) {
                        Some(other) => {
                            if text_eq(other, t.as_str()) {
                                seen = true;
                                assert(d.take(i as int)[j as int] == d[j as int]);
                                assert(route_target(d.take(i as int)[j as int]) == Some(t@));
                            }
                        },
                        None => {},
                    }
                }
                j = j + 1;
            }
            if !seen {
                assert forall|k: int| 0 <= k < d.take(i as int).len() implies #[trigger] route_target(d.take(i as int)[k]) != Some(t@) by {
                    assert(d.take(i as int)[k] == d[k]);
                }
            }
            if seen {
                push_issue(issues, "RANDOM_TARGET", concat(path.as_str(), "/target"), "randomised target is repeated");
            }
        },
        _ => {},
    }
    assert(issue_views(issues@) =~= start + route_issues(routes[i as int]@, path@, d.take(i as int)));
}

fn validate_route_list(value: Option<&JsonValue>, path: &str, issues: &mut Vec<IssueData>)
    requires
        value matches Some(v) ==> v.wf(),
    ensures
        issue_views(final(issues)@) == issue_views(old(issues)@) + match crate::json_value::opt_data(value) {
            Some(JsonData::Array(routes)) => list_issues(crate::json_value::opt_data(value), path@ + "/routes"@, 2,
                "SCHEMA_VALUE"@, "randomised gate requires at least two routes"@, "routes must be an array"@,
                route_fn(path@, routes)),
            Some(_) => seq![(path@ + "/routes"@, "SCHEMA_TYPE"@, "routes must be an array"@)],
            None => Seq::empty(),
        },
{
    let ghost start = issue_views(issues@);
    let list_path = concat(path, "/routes");
    match value {
        Some(JsonValue::Array(items)) => {
            let ghost d = array_data(*items);
            let ghost f = route_fn(path@, d);
            if items.len() < 2 {
                push_issue(issues, "SCHEMA_VALUE", list_path.clone(), "randomised gate requires at least two routes");
            }
            let ghost mid = issue_views(issues@);
            let mut i: usize = 0;
            while i < items.len()
                invariant
                    i <= items.len(),
                    d == array_data(*items),
                    d.len() == items.len(),
                    f == route_fn(path@, d),
                    data_wf(JsonData::Array(d)),
                    list_path@ == path@ + "/routes"@,
                    issue_views(issues@) == mid + concat_indexed(d.take(i as int), f),
                decreases items.len() - i,
            {
                proof {
                    lemma_concat_indexed_step(d, i as int, f);
                }
                assert(d[i as int] == items[i as int]@);
                assert(data_wf(d[i as int]));
                validate_route(items, i, indexed_string(list_path.as_str(), i), issues);
                assert(issue_views(issues@) =~= mid + concat_indexed(d.take(i + 1), f));
                i = i + 1;
            }
            proof {
                lemma_concat_indexed_all(d, f);
            }
            assert(issue_views(issues@) =~= start + list_issues(crate::json_value::opt_data(value), path@ + "/routes"@, 2,
                "SCHEMA_VALUE"@, "randomised gate requires at least two routes"@, "routes must be an array"@, f));
        },
        Some(_) => {
            push_issue(issues, "SCHEMA_TYPE", list_path, "routes must be an array");
        },
        None => {
            assert(issue_views(issues@) =~= start + Seq::<IssueView>::empty());
        },
    }
}

fn validate_branch(branch: &JsonValue, path: String, issues: &mut Vec<IssueData>)
    ensures
        issue_views(final(issues)@) == issue_views(old(issues)@) + branch_issues(branch@, path@),
{
    let b = match branch.object() {
        Some(b) => b,
        None => {
            push_issue(issues, "SCHEMA_TYPE", path, "branch must be an object");
            return;
        },
    };
    let ghost start = issue_views(old(issues)@);
    {
        let allowed: &[&str] = &["id", "target"];
        let required: &[&str] = &["id", "target"];
        assert(super::names(allowed@) =~= seq!["id"@, "target"@]);
        assert(super::names(required@) =~= seq!["id"@, "target"@]);
        validate_properties(b, path.as_str(), allowed, required, issues);
    }
    validate_identifier_field(member_get(b, "id"), concat(path.as_str(), "/id"), true, issues);
    validate_identifier_field(member_get(b, "target"), concat(path.as_str(), "/target"), true, issues);
    assert(issue_views(issues@) =~= start + branch_issues(branch@, path@));
}

fn validate_branch_list(value: Option<&JsonValue>, path: &str, issues: &mut Vec<IssueData>)
    ensures
        issue_views(final(issues)@) == issue_views(old(issues)@) + list_issues(crate::json_value::opt_data(value),
            path@ + "/branches"@, 2, "SCHEMA_VALUE"@, "fan-out requires at least two branches"@,
            "branches must be an array"@, branch_fn(path@)),
{
    let ghost start = issue_views(issues@);
    let list_path = concat(path, "/branches");
    match value {
        Some(JsonValue::Array(items)) => {
            let ghost d = array_data(*items);
            if items.len() < 2 {
                push_issue(issues, "SCHEMA_VALUE", list_path.clone(), "fan-out requires at least two branches");
            }
            let ghost mid = issue_views(issues@);
            let mut i: usize = 0;
            while i < items.len()
                invariant
                    i <= items.len(),
                    d == array_data(*items),
                    d.len() == items.len(),
                    list_path@ == path@ + "/branches"@,
                    issue_views(issues@) == mid + concat_indexed(d.take(i as int), branch_fn(path@)),
                decreases items.len() - i,
            {
                proof {
                    lemma_concat_indexed_step(d, i as int, branch_fn(path@));
                }
                assert(d[i as int] == items[i as int]@);
                validate_branch(&items[i], indexed_string(list_path.as_str(), i), issues);
                assert(issue_views(issues@) =~= mid + concat_indexed(d.take(i + 1), branch_fn(path@)));
                i = i + 1;
            }
            proof {
                lemma_concat_indexed_all(d, branch_fn(path@));
            }
            assert(issue_views(issues@) =~= start + list_issues(crate::json_value::opt_data(value), path@ + "/branches"@, 2,
                "SCHEMA_VALUE"@, "fan-out requires at least two branches"@, "branches must be an array"@,
                branch_fn(path@)));
        },
        Some(_) => {
            push_issue(issues, "SCHEMA_TYPE", list_path, "branches must be an array");
        },
        None => {
            assert(issue_views(issues@) =~= start + Seq::<IssueView>::empty());
        },
    }
}

fn validate_inputs(value: Option<&JsonValue>, path: &str, issues: &mut Vec<IssueData>)
    ensures
        issue_views(final(issues)@) == issue_views(old(issues)@) + match crate::json_value::opt_data(value) {
            Some(JsonData::Object(inputs)) => (if inputs.len() < 2 {
                seq![(path@ + "/inputs"@, "SCHEMA_VALUE"@, "converge requires at least two inputs"@)]
            } else {
                Seq::empty()
            }) + concat_indexed(inputs, input_fn(path@)),
            Some(_) => seq![(path@ + "/inputs"@, "SCHEMA_TYPE"@, "inputs must be an object"@)],
            None => Seq::empty(),
        },
{
    let ghost start = issue_views(issues@);
    let list_path = concat(path, "/inputs");
    match value {
        Some(JsonValue::Object(inputs)) => {
            let ghost d = object_data(*inputs);
            if inputs.len() < 2 {
                push_issue(issues, "SCHEMA_VALUE", list_path.clone(), "converge requires at least two inputs");
            }
            let ghost mid = issue_views(issues@);
            let mut i: usize = 0;
            while i < inputs.len()
                invariant
                    i <= inputs.len(),
                    d == object_data(*inputs),
                    d.len() == inputs.len(),
                    list_path@ == path@ + "/inputs"@,
                    issue_views(issues@) == mid + concat_indexed(d.take(i as int), input_fn(path@)),
                decreases inputs.len() - i,
            {
                proof {
                    lemma_concat_indexed_step(d, i as int, input_fn(path@));
                }
                assert(d[i as int] == (inputs[i as int].0@, inputs[i as int].1@));
                let flow_id = inputs[i].0.as_str();
                validate_identifier_text(flow_id, join_pointer(list_path.as_str(), flow_id), true, issues);
                validate_identifier_field(Some(&inputs[i].1), join_pointer(list_path.as_str(), flow_id), true, issues);
                assert(issue_views(issues@) =~= mid + concat_indexed(d.take(i + 1), input_fn(path@)));
                i = i + 1;
            }
            proof {
                lemma_concat_indexed_all(d, input_fn(path@));
            }
        },
        Some(_) => {
            push_issue(issues, "SCHEMA_TYPE", list_path, "inputs must be an object");
        },
        None => {
            assert(issue_views(issues@) =~= start + Seq::<IssueView>::empty());
        },
    }
}

/// Reports the structural issues of node `index`.
pub fn validate_node(value: &JsonValue, index: usize, issues: &mut Vec<IssueData>)
    requires
        value.wf(),
    ensures
        issue_views(final(issues)@) == issue_views(old(issues)@) + node_issues(value@, index as int),
{
    let ghost start = issue_views(issues@);
    let path = node_path_string(index);
    let node = match value.object() {
        Some(n) => n,
        None => {
            push_issue(issues, "SCHEMA_TYPE", path, "node must be an object");
            return;
        },
    };
    let ghost n = object_data(*node);
    let ghost p = path@;
    {
        let required: &[&str] = &["id", "type"];
        assert(super::names(required@) =~= seq!["id"@, "type"@]);
        super::validate_required(node, path.as_str(), required, issues);
    }
    validate_identifier_field(member_get(node, "id"), concat(path.as_str(), "/id"), true, issues);
    let ghost before_kind = issue_views(issues@);
    let kind = match member_get(node, "type") {
        Some(t) => match t.string() {
            Some(kind) => kind,
            None => {
                push_issue(issues, "SCHEMA_TYPE", concat(path.as_str(), "/type"), "node type must be a string");
                assert(issue_views(issues@) =~= start + node_issues(value@, index as int));
                return;
            },
        },
        None => {
            assert(issue_views(issues@) =~= start + node_issues(value@, index as int));
            return;
        },
    };
    if text_eq(kind, "task") {
        validate_task(node, path.as_str(), issues);
    } else if text_eq(kind, "map-schema") {
        validate_map(node, path.as_str(), issues);
    } else if text_eq(kind, "deterministic-gate") {
        validate_deterministic(node, path.as_str(), issues);
    } else if text_eq(kind, "randomised-gate") {
        validate_randomised(node, path.as_str(), issues);
    } else if text_eq(kind, "fan-out") {
        validate_fan_out(node, path.as_str(), issues);
    } else if text_eq(kind, "converge") {
        validate_converge(node, path.as_str(), issues);
    } else if text_eq(kind, "raise-error") {
        validate_raise(node, path.as_str(), issues);
    } else {
        push_issue(issues, "SCHEMA_VALUE", concat(path.as_str(), "/type"), "unsupported node type");
    }
    assert(issue_views(issues@) =~= start + node_issues(value@, index as int));
}


fn validate_task(node: &Vec<(String, JsonValue)>, path: &str, issues: &mut Vec<IssueData>)
    ensures
        issue_views(final(issues)@) == issue_views(old(issues)@) + task_issues(object_data(*node), path@),
{
    let ghost start = issue_views(issues@);
    {
        let allowed: &[&str] = &["id", "type", "task", "next"];
        let required: &[&str] = &["id", "type", "task"];
        assert(super::names(allowed@) =~= seq!["id"@, "type"@, "task"@, "next"@]);
        assert(super::names(required@) =~= seq!["id"@, "type"@, "task"@]);
        validate_properties(node, path, allowed, required, issues);
    }
    validate_identifier_field(member_get(node, "task"), concat(path, "/task"), false, issues);
    validate_optional_identifier(member_get(node, "next"), concat(path, "/next"), issues);
    assert(issue_views(issues@) =~= start + task_issues(object_data(*node), path@));
}

fn validate_map(node: &Vec<(String, JsonValue)>, path: &str, issues: &mut Vec<IssueData>)
    requires
        forall|i: int| 0 <= i < object_data(*node).len() ==> data_wf(#[trigger] object_data(*node)[i].1),
    ensures
        issue_views(final(issues)@) == issue_views(old(issues)@) + map_issues(object_data(*node), path@),
{
    let ghost start = issue_views(issues@);
    proof {
        lemma_member_wf(object_data(*node), "mappings"@);
    }
    {
        let allowed: &[&str] = &["id", "type", "mappings", "next"];
        let required: &[&str] = &["id", "type", "mappings"];
        assert(super::names(allowed@) =~= seq!["id"@, "type"@, "mappings"@, "next"@]);
        assert(super::names(required@) =~= seq!["id"@, "type"@, "mappings"@]);
        validate_properties(node, path, allowed, required, issues);
    }
    validate_optional_identifier(member_get(node, "next"), concat(path, "/next"), issues);
    validate_mapping_list(member_get(node, "mappings"), path, issues);
    assert(issue_views(issues@) =~= start + map_issues(object_data(*node), path@));
}

fn validate_deterministic(node: &Vec<(String, JsonValue)>, path: &str, issues: &mut Vec<IssueData>)
    requires
        forall|i: int| 0 <= i < object_data(*node).len() ==> data_wf(#[trigger] object_data(*node)[i].1),
    ensures
        issue_views(final(issues)@) == issue_views(old(issues)@) + deterministic_issues(object_data(*node), path@),
{
    let ghost start = issue_views(issues@);
    proof {
        lemma_member_wf(object_data(*node), "cases"@);
    }
    {
        let allowed: &[&str] = &["id", "type", "select", "cases"];
        let required: &[&str] = &["id", "type", "select", "cases"];
        assert(super::names(allowed@) =~= seq!["id"@, "type"@, "select"@, "cases"@]);
        assert(super::names(required@) =~= seq!["id"@, "type"@, "select"@, "cases"@]);
        validate_properties(node, path, allowed, required, issues);
    }
    validate_pointer_field(member_get(node, "select"), concat(path, "/select"), true, issues);
    validate_case_list(member_get(node, "cases"), path, issues);
    assert(issue_views(issues@) =~= start + deterministic_issues(object_data(*node), path@));
}

fn validate_randomised(node: &Vec<(String, JsonValue)>, path: &str, issues: &mut Vec<IssueData>)
    requires
        forall|i: int| 0 <= i < object_data(*node).len() ==> data_wf(#[trigger] object_data(*node)[i].1),
    ensures
        issue_views(final(issues)@) == issue_views(old(issues)@) + randomised_issues(object_data(*node), path@),
{
    let ghost start = issue_views(issues@);
    proof {
        lemma_member_wf(object_data(*node), "routes"@);
    }
    {
        let allowed: &[&str] = &["id", "type", "routes"];
        let required: &[&str] = &["id", "type", "routes"];
        assert(super::names(allowed@) =~= seq!["id"@, "type"@, "routes"@]);
        assert(super::names(required@) =~= seq!["id"@, "type"@, "routes"@]);
        validate_properties(node, path, allowed, required, issues);
    }
    validate_route_list(member_get(node, "routes"), path, issues);
    assert(issue_views(issues@) =~= start + randomised_issues(object_data(*node), path@));
}

fn validate_fan_out(node: &Vec<(String, JsonValue)>, path: &str, issues: &mut Vec<IssueData>)
    ensures
        issue_views(final(issues)@) == issue_views(old(issues)@) + fan_out_issues(object_data(*node), path@),
{
    let ghost start = issue_views(issues@);
    {
        let allowed: &[&str] = &["id", "type", "branches"];
        let required: &[&str] = &["id", "type", "branches"];
        assert(super::names(allowed@) =~= seq!["id"@, "type"@, "branches"@]);
        assert(super::names(required@) =~= seq!["id"@, "type"@, "branches"@]);
        validate_properties(node, path, allowed, required, issues);
    }
    validate_branch_list(member_get(node, "branches"), path, issues);
    assert(issue_views(issues@) =~= start + fan_out_issues(object_data(*node), path@));
}

fn validate_converge(node: &Vec<(String, JsonValue)>, path: &str, issues: &mut Vec<IssueData>)
    ensures
        issue_views(final(issues)@) == issue_views(old(issues)@) + converge_issues(object_data(*node), path@),
{
    let ghost start = issue_views(issues@);
    {
        let allowed: &[&str] = &["id", "type", "inputs", "next"];
        let required: &[&str] = &["id", "type", "inputs"];
        assert(super::names(allowed@) =~= seq!["id"@, "type"@, "inputs"@, "next"@]);
        assert(super::names(required@) =~= seq!["id"@, "type"@, "inputs"@]);
        validate_properties(node, path, allowed, required, issues);
    }
    validate_optional_identifier(member_get(node, "next"), concat(path, "/next"), issues);
    validate_inputs(member_get(node, "inputs"), path, issues);
    assert(issue_views(issues@) =~= start + converge_issues(object_data(*node), path@));
}

fn validate_raise(node: &Vec<(String, JsonValue)>, path: &str, issues: &mut Vec<IssueData>)
    ensures
        issue_views(final(issues)@) == issue_views(old(issues)@) + raise_issues(object_data(*node), path@),
{
    let ghost start = issue_views(issues@);
    {
        let allowed: &[&str] = &["id", "type", "message"];
        let required: &[&str] = &["id", "type", "message"];
        assert(super::names(allowed@) =~= seq!["id"@, "type"@, "message"@]);
        assert(super::names(required@) =~= seq!["id"@, "type"@, "message"@]);
        validate_properties(node, path, allowed, required, issues);
    }
    let ghost mid = issue_views(issues@);
    match member_get(node, "message") {
        Some(JsonValue::String(m)) => {
            if m.as_str().is_empty() {
                push_issue(issues, "SCHEMA_VALUE", concat(path, "/message"), "message must not be empty");
            }
        },
        Some(_) => {
            push_issue(issues, "SCHEMA_TYPE", concat(path, "/message"), "message must be a string");
        },
        None => {},
    }
    assert(issue_views(issues@) =~= start + raise_issues(object_data(*node), path@));
}

} // verus!
