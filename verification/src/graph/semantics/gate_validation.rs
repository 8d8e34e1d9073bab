//! Deterministic-gate cases that can both match one value.
use std::cmp::Ordering;
use vstd::prelude::*;

use super::ids::{field_of, node_field, node_text, text_of};
use crate::diagnostics::{concat_indexed, issue_views, lemma_concat_indexed_all, lemma_concat_indexed_step,
    push_issue_owned, IssueData, IssueView};
use crate::execution::gate::case_accepts;
use crate::graph::model::{GateCase, JsonNumber};
use crate::graph::numbers::{compare_numbers, data_number, json_number, number_order};
use crate::graph::structure::node::{indexed, indexed_string};
use crate::json_value::{array_data, data_eq, data_text, data_wf, member, member_get, object_data, JsonData,
    JsonValue};
use crate::text::{concat, decimal, node_path, node_path_string, owned, push_decimal, text_eq};

verus! {

/// The numbers a numeric case accepts: optional lower and upper bounds, each with whether it
/// is inclusive.
#[derive(Clone, Copy)]
pub struct Interval {
    pub lower: Option<(JsonNumber, bool)>,
    pub upper: Option<(JsonNumber, bool)>,
}

/// The number a member holds.
pub open spec fn member_number(c: Seq<(Seq<char>, JsonData)>, key: Seq<char>) -> Option<JsonNumber> {
    match member(c, key) {
        Some(v) => data_number(v),
        None => None,
    }
}

/// The text a member holds.
pub open spec fn member_text(c: Seq<(Seq<char>, JsonData)>, key: Seq<char>) -> Option<Seq<char>> {
    match member(c, key) {
        Some(v) => data_text(v),
        None => None,
    }
}

/// The interval of a numeric case (`eq` with a number, `lt`, `le`, `ge`, `gt`, `in_range`).
pub open spec fn case_interval(c: Seq<(Seq<char>, JsonData)>) -> Option<Interval> {
    let op = member_text(c, "operator"@);
    if op == Some("eq"@) {
        match member_number(c, "value"@) {
            Some(v) => Some(Interval { lower: Some((v, true)), upper: Some((v, true)) }),
            None => None,
        }
    } else if op == Some("lt"@) {
        match member_number(c, "value"@) {
            Some(v) => Some(Interval { lower: None, upper: Some((v, false)) }),
            None => None,
        }
    } else if op == Some("le"@) {
        match member_number(c, "value"@) {
            Some(v) => Some(Interval { lower: None, upper: Some((v, true)) }),
            None => None,
        }
    } else if op == Some("ge"@) {
        match member_number(c, "value"@) {
            Some(v) => Some(Interval { lower: Some((v, true)), upper: None }),
            None => None,
        }
    } else if op == Some("gt"@) {
        match member_number(c, "value"@) {
            Some(v) => Some(Interval { lower: Some((v, false)), upper: None }),
            None => None,
        }
    } else if op == Some("in_range"@) {
        match (member_number(c, "lower"@), member_number(c, "upper"@)) {
            (Some(l), Some(u)) => Some(Interval { lower: Some((l, true)), upper: Some((u, true)) }),
            _ => None,
        }
    } else {
        None
    }
}

/// The tighter of two lower bounds; at equal values, inclusive only if both are.
pub open spec fn tighter_lower(l: (JsonNumber, bool), r: (JsonNumber, bool)) -> (JsonNumber, bool) {
    if number_order(l.0, r.0) is Greater {
        l
    } else if number_order(l.0, r.0) is Less {
        r
    } else {
        (l.0, l.1 && r.1)
    }
}

/// The tighter of two upper bounds; at equal values, inclusive only if both are.
pub open spec fn tighter_upper(l: (JsonNumber, bool), r: (JsonNumber, bool)) -> (JsonNumber, bool) {
    if number_order(l.0, r.0) is Less {
        l
    } else if number_order(l.0, r.0) is Greater {
        r
    } else {
        (l.0, l.1 && r.1)
    }
}

pub open spec fn combine(l: Option<(JsonNumber, bool)>, r: Option<(JsonNumber, bool)>, lower: bool) -> Option<(JsonNumber, bool)> {
    match (l, r) {
        (Some(a), Some(b)) => Some(if lower { tighter_lower(a, b) } else { tighter_upper(a, b) }),
        (Some(a), None) => Some(a),
        (None, Some(b)) => Some(b),
        (None, None) => None,
    }
}

/// Two intervals share a number; an interval without lower or without upper bounds on both
/// sides counts as overlapping.
pub open spec fn intervals_meet(left: Interval, right: Interval) -> bool {
    match combine(left.lower, right.lower, true) {
        None => true,
        Some(lo) => match combine(left.upper, right.upper, false) {
            None => true,
            Some(hi) => if number_order(lo.0, hi.0) is Less {
                true
            } else if number_order(lo.0, hi.0) is Equal {
                lo.1 && hi.1
            } else {
                false
            },
        },
    }
}

/// Whether a number lies within an interval: above the lower bound (or equal to it when it is
/// inclusive) and below the upper bound (or equal to it when it is inclusive).
pub open spec fn interval_holds(iv: Interval, n: JsonNumber) -> bool {
    &&& match iv.lower {
        Some((l, inclusive)) => number_order(n, l) is Greater || (inclusive && number_order(n, l) is Equal),
        None => true,
    }
    &&& match iv.upper {
        Some((u, inclusive)) => number_order(n, u) is Less || (inclusive && number_order(n, u) is Equal),
        None => true,
    }
}

/// The interval of a comparison case holds exactly the numbers that the case, once compiled
/// with the same bounds, accepts at run time: for `lt`, `le`, `ge`, `gt` and `in_range`, a
/// number is in the interval if and only if the case accepts it.
pub proof fn lemma_interval_is_acceptance(c: Seq<(Seq<char>, JsonData)>, d: JsonData, target: usize)
    requires
        data_number(d) is Some,
    ensures
        ({
            let n = data_number(d)->0;
            let op = member_text(c, "operator"@);
            let v = member_number(c, "value"@);
            &&& op == Some("lt"@) && v is Some ==> case_interval(c) is Some && (interval_holds(case_interval(c)->0, n)
                <==> case_accepts(Some(d), GateCase::Lt { value: v->0, target }))
            &&& op == Some("le"@) && v is Some ==> case_interval(c) is Some && (interval_holds(case_interval(c)->0, n)
                <==> case_accepts(Some(d), GateCase::Le { value: v->0, target }))
            &&& op == Some("ge"@) && v is Some ==> case_interval(c) is Some && (interval_holds(case_interval(c)->0, n)
                <==> case_accepts(Some(d), GateCase::Ge { value: v->0, target }))
            &&& op == Some("gt"@) && v is Some ==> case_interval(c) is Some && (interval_holds(case_interval(c)->0, n)
                <==> case_accepts(Some(d), GateCase::Gt { value: v->0, target }))
            &&& op == Some("in_range"@) && member_number(c, "lower"@) is Some && member_number(c, "upper"@) is Some
                ==> case_interval(c) is Some && (interval_holds(case_interval(c)->0, n) <==> case_accepts(
                Some(d),
                GateCase::Range {
                    lower: member_number(c, "lower"@)->0,
                    upper: member_number(c, "upper"@)->0,
                    target,
                },
            ))
        }),
{
    reveal_strlit("eq");
    reveal_strlit("lt");
    reveal_strlit("le");
    reveal_strlit("ge");
    reveal_strlit("gt");
    reveal_strlit("in_range");
    assert("eq"@[0] != "lt"@[0] && "eq"@[0] != "ge"@[0] && "lt"@[1] != "le"@[1] && "ge"@[1] != "gt"@[1]);
    assert("lt"@[0] != "gt"@[0] && "le"@[0] != "ge"@[0] && "lt"@[0] != "ge"@[0] && "le"@[0] != "gt"@[0]);
    assert("eq"@ != "lt"@ && "eq"@ != "le"@ && "eq"@ != "ge"@ && "eq"@ != "gt"@ && "eq"@ != "in_range"@);
    assert("lt"@ != "le"@ && "lt"@ != "ge"@ && "lt"@ != "gt"@ && "lt"@ != "in_range"@);
    assert("le"@ != "ge"@ && "le"@ != "gt"@ && "le"@ != "in_range"@);
    assert("ge"@ != "gt"@ && "ge"@ != "in_range"@);
    assert("gt"@ != "in_range"@);
}

/// No overlap between numeric cases is missed: when some number lies in both intervals, the
/// intervals meet.
pub proof fn lemma_shared_number_meets(left: Interval, right: Interval, n: JsonNumber)
    requires
        interval_holds(left, n),
        interval_holds(right, n),
    ensures
        intervals_meet(left, right),
{
}

/// The interval of an `eq` case with a number holds exactly the numbers equal to it.
pub proof fn lemma_eq_interval(c: Seq<(Seq<char>, JsonData)>, n: JsonNumber)
    requires
        member_text(c, "operator"@) == Some("eq"@),
        member_number(c, "value"@) is Some,
    ensures
        case_interval(c) is Some,
        interval_holds(case_interval(c)->0, n) <==> number_order(n, member_number(c, "value"@)->0) is Equal,
{
}

/// A `gt` case and a later `le` case meet, and are reported as overlapping, exactly when the
/// `gt` value lies below the `le` value: `gt 5` and `le 5` share no number.
pub proof fn lemma_gt_le_meet(l: Seq<(Seq<char>, JsonData)>, r: Seq<(Seq<char>, JsonData)>)
    requires
        member_text(l, "operator"@) == Some("gt"@),
        member_text(r, "operator"@) == Some("le"@),
        member_number(l, "value"@) is Some,
        member_number(r, "value"@) is Some,
    ensures
        cases_meet(JsonData::Object(l), JsonData::Object(r)) <==> number_order(
            member_number(l, "value"@)->0,
            member_number(r, "value"@)->0,
        ) is Less,
        cases_meet(JsonData::Object(r), JsonData::Object(l)) <==> number_order(
            member_number(l, "value"@)->0,
            member_number(r, "value"@)->0,
        ) is Less,
{
    reveal_strlit("eq");
    reveal_strlit("lt");
    reveal_strlit("le");
    reveal_strlit("ge");
    reveal_strlit("gt");
    reveal_strlit("otherwise");
    assert("gt"@[0] != "eq"@[0] && "gt"@[0] != "lt"@[0] && "gt"@[0] != "le"@[0] && "gt"@[1] != "ge"@[1]);
    assert("le"@[0] != "eq"@[0] && "le"@[1] != "lt"@[1]);
    assert("gt"@ != "eq"@ && "gt"@ != "lt"@ && "gt"@ != "le"@ && "gt"@ != "ge"@ && "gt"@ != "otherwise"@);
    assert("le"@ != "eq"@ && "le"@ != "lt"@ && "le"@ != "otherwise"@);
}

/// Two optional members are equal: both absent, or both present and equal.
pub open spec fn same_member(a: Option<JsonData>, b: Option<JsonData>) -> bool {
    match (a, b) {
        (None, None) => true,
        (Some(x), Some(y)) => data_eq(x, y),
        _ => false,
    }
}

/// Two optional members hold numerically equal numbers.
pub open spec fn numerically_equal(a: Option<JsonData>, b: Option<JsonData>) -> bool {
    match (a, b) {
        (Some(x), Some(y)) => match (data_number(x), data_number(y)) {
            (Some(m), Some(n)) => number_order(m, n) is Equal,
            _ => false,
        },
        _ => false,
    }
}

/// The texts among the items of a member array.
pub open spec fn set_holds(c: Seq<(Seq<char>, JsonData)>, t: Seq<char>) -> bool {
    match member(c, "values"@) {
        Some(JsonData::Array(items)) => exists|k: int| 0 <= k < items.len() && #[trigger] items[k] == JsonData::Text(t),
        _ => false,
    }
}

/// Some text among the right set's values is among the left set's values.
pub open spec fn sets_share(left: Seq<(Seq<char>, JsonData)>, right: Seq<(Seq<char>, JsonData)>) -> bool {
    match member(right, "values"@) {
        Some(JsonData::Array(items)) => exists|k: int| 0 <= k < items.len() && #[trigger] data_text(items[k]) is Some
            && set_holds(left, data_text(items[k])->0),
        _ => false,
    }
}

/// Whether two cases can both match one selected value.
pub open spec fn cases_meet(left: JsonData, right: JsonData) -> bool {
    match (left, right) {
        (JsonData::Object(l), JsonData::Object(r)) => match (member_text(l, "operator"@), member_text(r, "operator"@)) {
            (Some(lop), Some(rop)) => if lop == "otherwise"@ || rop == "otherwise"@ {
                false
            } else if case_interval(l) is Some && case_interval(r) is Some {
                intervals_meet(case_interval(l)->0, case_interval(r)->0)
            } else if lop == "eq"@ && rop == "eq"@ {
                same_member(member(l, "value"@), member(r, "value"@)) || numerically_equal(member(l, "value"@), member(r, "value"@))
            } else if lop == "eq"@ && rop == "in_set"@ {
                member_text(l, "value"@) is Some && set_holds(r, member_text(l, "value"@)->0)
            } else if lop == "in_set"@ && rop == "eq"@ {
                member_text(r, "value"@) is Some && set_holds(l, member_text(r, "value"@)->0)
            } else if lop == "in_set"@ && rop == "in_set"@ {
                sets_share(l, r)
            } else {
                false
            },
            _ => false,
        },
        _ => false,
    }
}

/// The first case before `right`, from `left` on, that overlaps it.
pub open spec fn first_overlap(cases: Seq<JsonData>, right: int, left: int) -> Option<int>
    decreases right - left,
{
    if left >= right || left < 0 {
        None
    } else if cases_meet(cases[left], cases[right]) {
        Some(left)
    } else {
        first_overlap(cases, right, left + 1)
    }
}

/// The issue for a case that overlaps an earlier one.
pub open spec fn overlap_fn(i: int, cases: Seq<JsonData>) -> spec_fn(int, JsonData) -> Seq<IssueView> {
    |right: int, c: JsonData| match first_overlap(cases, right, 0) {
        Some(left) => seq![(indexed(node_path(i) + "/cases"@, right), "GATE_OVERLAP"@,
            "case overlaps earlier case at index "@ + decimal(left as nat))],
        None => Seq::empty(),
    }
}

/// The cases of node `i` that overlap an earlier case, whatever the node's type.
pub open spec fn case_overlap_issues(i: int, node: JsonData) -> Seq<IssueView> {
    match node_field(node, "cases"@) {
        Some(JsonData::Array(cases)) => concat_indexed(cases, overlap_fn(i, cases)),
        _ => Seq::empty(),
    }
}

/// The overlapping cases of node `i`, when it is a deterministic gate.
pub open spec fn gate_overlap_issues(i: int, node: JsonData) -> Seq<IssueView> {
    if node_text(node, "type"@) == Some("deterministic-gate"@) {
        case_overlap_issues(i, node)
    } else {
        Seq::empty()
    }
}

fn member_number_of(c: &Vec<(String, JsonValue)>, key: &str) -> (result: Option<JsonNumber>)
    ensures
        result == member_number(object_data(*c), key@),
{
    match member_get(c, key) {
        Some(v) => json_number(v),
        None => None,
    }
}

fn member_text_of<'a>(c: &'a Vec<(String, JsonValue)>, key: &str) -> (result: Option<&'a str>)
    ensures
        match result {
            Some(t) => member_text(object_data(*c), key@) == Some(t@),
            None => member_text(object_data(*c), key@) is None,
        },
{
    match member_get(c, key) {
        Some(v) => v.string(),
        None => None,
    }
}

/// Numbers in well-formed data are finite.
proof fn lemma_member_number_wf(c: Seq<(Seq<char>, JsonData)>, key: Seq<char>)
    requires
        forall|i: int| 0 <= i < c.len() ==> data_wf(#[trigger] c[i].1),
    ensures
        member_number(c, key) is Some ==> member_number(c, key)->0.wf(),
{
    crate::json_value::lemma_member_data_wf(c, key);
}

/// A bound, when present, is a well-formed number.
pub open spec fn bound_wf(b: Option<(JsonNumber, bool)>) -> bool {
    match b {
        Some((n, _)) => n.wf(),
        None => true,
    }
}

pub open spec fn interval_wf(v: Interval) -> bool {
    bound_wf(v.lower) && bound_wf(v.upper)
}

/// The interval of a numeric case.
fn numeric_interval(c: &Vec<(String, JsonValue)>) -> (result: Option<Interval>)
    requires
        data_wf(JsonData::Object(object_data(*c))),
    ensures
        result == case_interval(object_data(*c)),
        result is Some ==> interval_wf(result->0),
{
    proof {
        lemma_member_number_wf(object_data(*c), "value"@);
        lemma_member_number_wf(object_data(*c), "lower"@);
        lemma_member_number_wf(object_data(*c), "upper"@);
    }
    let op = match member_text_of(c, "operator") {
        Some(op) => op,
        None => return None,
    };
    if text_eq(op, "eq") {
        match member_number_of(c, "value") {
            Some(v) => Some(Interval { lower: Some((v, true)), upper: Some((v, true)) }),
            None => None,
        }
    } else if text_eq(op, "lt") {
        match member_number_of(c, "value") {
            Some(v) => Some(Interval { lower: None, upper: Some((v, false)) }),
            None => None,
        }
    } else if text_eq(op, "le") {
        match member_number_of(c, "value") {
            Some(v) => Some(Interval { lower: None, upper: Some((v, true)) }),
            None => None,
        }
    } else if text_eq(op, "ge") {
        match member_number_of(c, "value") {
            Some(v) => Some(Interval { lower: Some((v, true)), upper: None }),
            None => None,
        }
    } else if text_eq(op, "gt") {
        match member_number_of(c, "value") {
            Some(v) => Some(Interval { lower: Some((v, false)), upper: None }),
            None => None,
        }
    } else if text_eq(op, "in_range") {
        match (member_number_of(c, "lower"), member_number_of(c, "upper")) {
            (Some(l), Some(u)) => Some(Interval { lower: Some((l, true)), upper: Some((u, true)) }),
            _ => None,
        }
    } else {
        None
    }
}

fn combine_bounds(l: Option<(JsonNumber, bool)>, r: Option<(JsonNumber, bool)>, lower: bool) -> (result: Option<(JsonNumber, bool)>)
    requires
        bound_wf(l),
        bound_wf(r),
    ensures
        result == combine(l, r, lower),
        bound_wf(result),
{
    match (l, r) {
        (Some(a), Some(b)) => {
            let ord = compare_numbers(a.0, b.0);
            if lower {
                match ord {
                    Ordering::Greater => Some(a),
                    Ordering::Less => Some(b),
                    Ordering::Equal => Some((a.0, a.1 && b.1)),
                }
            } else {
                match ord {
                    Ordering::Less => Some(a),
                    Ordering::Greater => Some(b),
                    Ordering::Equal => Some((a.0, a.1 && b.1)),
                }
            }
        },
        (Some(a), None) => Some(a),
        (None, Some(b)) => Some(b),
        (None, None) => None,
    }
}

/// Whether two intervals share a number.
fn intervals_overlap(left: Interval, right: Interval) -> (result: bool)
    requires
        interval_wf(left),
        interval_wf(right),
    ensures
        result == intervals_meet(left, right),
{
    let lower = match combine_bounds(left.lower, right.lower, true) {
        Some(b) => b,
        None => return true,
    };
    let upper = match combine_bounds(left.upper, right.upper, false) {
        Some(b) => b,
        None => return true,
    };
    match compare_numbers(lower.0, upper.0) {
        Ordering::Less => true,
        Ordering::Equal => lower.1 && upper.1,
        Ordering::Greater => false,
    }
}

fn numeric_equal_values(left: Option<&JsonValue>, right: Option<&JsonValue>) -> (result: bool)
    requires
        left is Some ==> left->0.wf(),
        right is Some ==> right->0.wf(),
    ensures
        result == numerically_equal(crate::json_value::opt_data(left), crate::json_value::opt_data(right)),
{
    match (left, right) {
        (Some(l), Some(r)) => match (json_number(l), json_number(r)) {
            (Some(m), Some(n)) => match compare_numbers(m, n) {
                Ordering::Equal => true,
                _ => false,
            },
            _ => false,
        },
        _ => false,
    }
}

fn same_member_values(left: Option<&JsonValue>, right: Option<&JsonValue>) -> (result: bool)
    requires
        left is Some ==> left->0.wf(),
        right is Some ==> right->0.wf(),
    ensures
        result == same_member(crate::json_value::opt_data(left), crate::json_value::opt_data(right)),
{
    match (left, right) {
        (None, None) => true,
        (Some(l), Some(r)) => l.equals(r),
        _ => false,
    }
}

/// Whether the `values` array of a case holds the text.
fn set_contains(c: &Vec<(String, JsonValue)>, t: &str) -> (result: bool)
    ensures
        result == set_holds(object_data(*c), t@),
{
    let items = match member_get(c, "values") {
        Some(v) => match v.array() {
            Some(items) => items,
            None => return false,
        },
        None => return false,
    };
    let ghost id = array_data(*items);
    let mut k: usize = 0;
    while k < items.len()
        invariant
            k <= items.len(),
            id == array_data(*items),
            id.len() == items.len(),
            member(object_data(*c), "values"@) == Some(JsonData::Array(id)),
            forall|j: int| 0 <= j < k ==> #[trigger] id[j] != JsonData::Text(t@),
        decreases items.len() - k,
    {
        assert(id[k as int] == items[k as int]@);
        match items[k].string() {
            Some(s) => {
                if text_eq(s, t) {
                    return true;
                }
            },
            None => {},
        }
        k = k + 1;
    }
    false
}

/// Whether some text among the right case's values is among the left case's values.
fn sets_overlap(l: &Vec<(String, JsonValue)>, r: &Vec<(String, JsonValue)>) -> (result: bool)
    ensures
        result == sets_share(object_data(*l), object_data(*r)),
{
    let items = match member_get(r, "values") {
        Some(v) => match v.array() {
            Some(items) => items,
            None => return false,
        },
        None => return false,
    };
    let ghost id = array_data(*items);
    let mut k: usize = 0;
    while k < items.len()
        invariant
            k <= items.len(),
            id == array_data(*items),
            id.len() == items.len(),
            member(object_data(*r), "values"@) == Some(JsonData::Array(id)),
            forall|j: int| 0 <= j < k ==> !(#[trigger] data_text(id[j]) is Some && set_holds(object_data(*l), data_text(id[j])->0)),
        decreases items.len() - k,
    {
        assert(id[k as int] == items[k as int]@);
        match items[k].string() {
            Some(s) => {
                if set_contains(l, s) {
                    assert(data_text(id[k as int]) is Some && set_holds(object_data(*l), data_text(id[k as int])->0));
                    return true;
                }
            },
            None => {},
        }
        k = k + 1;
    }
    false
}

/// Whether two cases can both match one selected value.
pub fn cases_overlap(left: &JsonValue, right: &JsonValue) -> (result: bool)
    requires
        left.wf(),
        right.wf(),
    ensures
        result == cases_meet(left@, right@),
{
    let l = match left.object() {
        Some(l) => l,
        None => return false,
    };
    let r = match right.object() {
        Some(r) => r,
        None => return false,
    };
    let ghost ld = object_data(*l);
    let ghost rd = object_data(*r);
    assert(left@ == JsonData::Object(ld) && right@ == JsonData::Object(rd));
    let lop = match member_text_of(l, "operator") {
        Some(op) => op,
        None => return false,
    };
    let rop = match member_text_of(r, "operator") {
        Some(op) => op,
        None => return false,
    };
    if text_eq(lop, "otherwise") || text_eq(rop, "otherwise") {
        return false;
    }
    match (numeric_interval(l), numeric_interval(r)) {
        (Some(a), Some(b)) => {
            return intervals_overlap(a, b);
        },
        _ => {},
    }
    if text_eq(lop, "eq") && text_eq(rop, "eq") {
        let lv = member_get(l, "value");
        let rv = member_get(r, "value");
        proof {
            crate::json_value::lemma_member_data_wf(ld, "value"@);
            crate::json_value::lemma_member_data_wf(rd, "value"@);
        }
        same_member_values(lv, rv) || numeric_equal_values(lv, rv)
    } else if text_eq(lop, "eq") && text_eq(rop, "in_set") {
        match member_text_of(l, "value") {
            Some(v) => set_contains(r, v),
            None => false,
        }
    } else if text_eq(lop, "in_set") && text_eq(rop, "eq") {
        match member_text_of(r, "value") {
            Some(v) => set_contains(l, v),
            None => false,
        }
    } else if text_eq(lop, "in_set") && text_eq(rop, "in_set") {
        sets_overlap(l, r)
    } else {
        false
    }
}

/// The first earlier case that overlaps case `right`.
fn first_overlapping(cases: &Vec<JsonValue>, right: usize) -> (result: Option<usize>)
    requires
        right < cases.len(),
        forall|k: int| 0 <= k < cases.len() ==> (#[trigger] cases[k]).wf(),
    ensures
        match result {
            Some(l) => first_overlap(array_data(*cases), right as int, 0) == Some(l as int),
            None => first_overlap(array_data(*cases), right as int, 0) is None,
        },
{
    let ghost cd = array_data(*cases);
    let mut left: usize = 0;
    while left < right
        invariant
            left <= right < cases.len(),
            cd == array_data(*cases),
            cd.len() == cases.len(),
            forall|k: int| 0 <= k < cases.len() ==> (#[trigger] cases[k]).wf(),
            first_overlap(cd, right as int, 0) == first_overlap(cd, right as int, left as int),
        decreases right - left,
    {
        assert(cd[left as int] == cases[left as int]@ && cd[right as int] == cases[right as int]@);
        if cases_overlap(&cases[left], &cases[right]) {
            return Some(left);
        }
        left = left + 1;
    }
    None
}

fn overlap_message(left: usize) -> (result: String)
    ensures
        result@ == "case overlaps earlier case at index "@ + decimal(left as nat),
{
    let mut out = owned("case overlaps earlier case at index ");
    push_decimal(&mut out, left);
    out
}

/// Reports every case of a node that overlaps an earlier case.
pub fn validate_gate_overlaps(node: &JsonValue, index: usize, issues: &mut Vec<IssueData>)
    requires
        node.wf(),
    ensures
        issue_views(final(issues)@) == issue_views(old(issues)@) + case_overlap_issues(index as int, node@),
{
    let ghost start = issue_views(issues@);
    let cases = match field_of(node, "cases") {
        Some(v) => match v.array() {
            Some(items) => items,
            None => {
                assert(issue_views(issues@) =~= start + case_overlap_issues(index as int, node@));
                return;
            },
        },
        None => {
            assert(issue_views(issues@) =~= start + case_overlap_issues(index as int, node@));
            return;
        },
    };
    let ghost cd = array_data(*cases);
    proof {
        let m = node@->Object_0;
        crate::json_value::lemma_member_data_wf(m, "cases"@);
        assert forall|k: int| 0 <= k < cases.len() implies (#[trigger] cases[k]).wf() by {
            assert(cd[k] == cases[k]@);
        }
    }
    let base = concat(node_path_string(index).as_str(), "/cases");
    let mut right: usize = 0;
    while right < cases.len()
        invariant
            right <= cases.len(),
            cd == array_data(*cases),
            cd.len() == cases.len(),
            forall|k: int| 0 <= k < cases.len() ==> (#[trigger] cases[k]).wf(),
            base@ == node_path(index as int) + "/cases"@,
            issue_views(issues@) == start + concat_indexed(cd.take(right as int), overlap_fn(index as int, cd)),
        decreases cases.len() - right,
    {
        proof {
            lemma_concat_indexed_step(cd, right as int, overlap_fn(index as int, cd));
        }
        match first_overlapping(cases, right) {
            Some(left) => {
                push_issue_owned(issues, "GATE_OVERLAP", indexed_string(base.as_str(), right), overlap_message(left));
            },
            None => {},
        }
        assert(issue_views(issues@) =~= start + concat_indexed(cd.take(right + 1), overlap_fn(index as int, cd)));
        right = right + 1;
    }
    proof {
        lemma_concat_indexed_all(cd, overlap_fn(index as int, cd));
    }
    assert(issue_views(issues@) =~= start + case_overlap_issues(index as int, node@));
}

} // verus!
