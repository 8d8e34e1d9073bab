//! Choosing the case of a deterministic gate.
use std::cmp::Ordering;
use vstd::prelude::*;

use crate::graph::model::{GateCase, JsonNumber};
use crate::graph::numbers::{compare_numbers, data_number, json_number, number_order};
use crate::json_value::{data_eq, JsonData, JsonValue};
use crate::text::text_eq;

verus! {

/// Values are equal as numbers when both are numbers, else as JSON values.
pub open spec fn values_equal(a: JsonData, b: JsonData) -> bool {
    match (data_number(a), data_number(b)) {
        (Some(x), Some(y)) => number_order(x, y) is Equal,
        _ => data_eq(a, b),
    }
}

/// Whether a case accepts the selected value (absent when the pointer found nothing).
pub open spec fn case_accepts(selected: Option<JsonData>, case: GateCase) -> bool {
    let number = match selected {
        Some(v) => data_number(v),
        None => None,
    };
    match case {
        GateCase::Eq { value, .. } => selected is Some && values_equal(selected->0, value@),
        GateCase::Lt { value, .. } => number is Some && number_order(number->0, value) is Less,
        GateCase::Le { value, .. } => number is Some && !(number_order(number->0, value) is Greater),
        GateCase::Ge { value, .. } => number is Some && !(number_order(number->0, value) is Less),
        GateCase::Gt { value, .. } => number is Some && number_order(number->0, value) is Greater,
        GateCase::Range { lower, upper, .. } => number is Some && !(number_order(number->0, lower) is Less) && !(number_order(
            number->0,
            upper,
        ) is Greater),
        GateCase::InSet { values, .. } => match selected {
            Some(JsonData::Text(t)) => exists|k: int| 0 <= k < values.len() && #[trigger] values[k]@ == t,
            _ => false,
        },
        GateCase::Otherwise { .. } => true,
    }
}

/// The operator name of a case.
pub open spec fn case_operator(case: GateCase) -> Seq<char> {
    match case {
        GateCase::Eq { .. } => "eq"@,
        GateCase::Lt { .. } => "lt"@,
        GateCase::Le { .. } => "le"@,
        GateCase::Ge { .. } => "ge"@,
        GateCase::Gt { .. } => "gt"@,
        GateCase::Range { .. } => "in_range"@,
        GateCase::InSet { .. } => "in_set"@,
        GateCase::Otherwise { .. } => "otherwise"@,
    }
}

/// The first case, from `from` on, that accepts the value.
pub open spec fn first_accepting(selected: Option<JsonData>, cases: Seq<GateCase>, from: int) -> Option<int>
    decreases cases.len() - from,
{
    if from < 0 || from >= cases.len() {
        None
    } else if case_accepts(selected, cases[from]) {
        Some(from)
    } else {
        first_accepting(selected, cases, from + 1)
    }
}

/// The first accepting case lies among the cases.
pub proof fn lemma_first_accepting_range(selected: Option<JsonData>, cases: Seq<GateCase>, from: int)
    ensures
        first_accepting(selected, cases, from) is Some ==> from <= first_accepting(selected, cases, from)->0 < cases.len(),
    decreases cases.len() - from,
{
    if 0 <= from < cases.len() && !case_accepts(selected, cases[from]) {
        lemma_first_accepting_range(selected, cases, from + 1);
    }
}

/// Some case accepts every value: there is an `otherwise`.
pub open spec fn has_otherwise(cases: Seq<GateCase>) -> bool {
    exists|k: int| 0 <= k < cases.len() && #[trigger] cases[k] is Otherwise
}

proof fn lemma_otherwise_accepts(selected: Option<JsonData>, cases: Seq<GateCase>, from: int)
    requires
        0 <= from <= cases.len(),
        exists|k: int| from <= k < cases.len() && #[trigger] cases[k] is Otherwise,
    ensures
        first_accepting(selected, cases, from) is Some,
    decreases cases.len() - from,
{
    if from < cases.len() && !case_accepts(selected, cases[from]) {
        let k = choose|k: int| from <= k < cases.len() && #[trigger] cases[k] is Otherwise;
        assert(k != from);
        lemma_otherwise_accepts(selected, cases, from + 1);
    }
}

/// How the numeric cases judge a selected number `n` against their bounds: `lt` accepts the
/// numbers below the value, `le` those below or equal to it, `ge` those above or equal, `gt`
/// those above, and `in_range` those between its bounds, both included. So a number equal to
/// the value is accepted by `le`, `ge` and an `in_range` that has it as a bound; and at every
/// value, `le` accepts exactly what `gt` rejects and `ge` exactly what `lt` rejects.
pub proof fn lemma_numeric_cases(d: JsonData, value: JsonNumber, lower: JsonNumber, upper: JsonNumber, target: usize)
    requires
        data_number(d) is Some,
    ensures
        ({
            let n = data_number(d)->0;
            &&& case_accepts(Some(d), GateCase::Lt { value, target }) <==> number_order(n, value) is Less
            &&& case_accepts(Some(d), GateCase::Le { value, target }) <==> (number_order(n, value) is Less
                || number_order(n, value) is Equal)
            &&& case_accepts(Some(d), GateCase::Ge { value, target }) <==> (number_order(n, value) is Greater
                || number_order(n, value) is Equal)
            &&& case_accepts(Some(d), GateCase::Gt { value, target }) <==> number_order(n, value) is Greater
            &&& case_accepts(Some(d), GateCase::Range { lower, upper, target }) <==> ((number_order(n, lower) is Greater
                || number_order(n, lower) is Equal) && (number_order(n, upper) is Less || number_order(n, upper) is Equal))
            &&& case_accepts(Some(d), GateCase::Le { value: n, target })
            &&& case_accepts(Some(d), GateCase::Ge { value: n, target })
            &&& case_accepts(Some(d), GateCase::Range { lower: n, upper, target }) <==> !(number_order(n, upper) is Greater)
            &&& case_accepts(Some(d), GateCase::Range { lower, upper: n, target }) <==> !(number_order(n, lower) is Less)
            &&& !case_accepts(Some(d), GateCase::Lt { value: n, target })
            &&& !case_accepts(Some(d), GateCase::Gt { value: n, target })
            &&& case_accepts(Some(d), GateCase::Le { value, target }) != case_accepts(Some(d), GateCase::Gt { value, target })
            &&& case_accepts(Some(d), GateCase::Ge { value, target }) != case_accepts(Some(d), GateCase::Lt { value, target })
        }),
{
}

/// The case a gate takes is the first that accepts the value: it accepts it, and every case
/// before it rejects it; when no case accepts it, there is none to take.
pub proof fn lemma_first_accepting_is_first(selected: Option<JsonData>, cases: Seq<GateCase>, from: int)
    requires
        0 <= from,
    ensures
        match first_accepting(selected, cases, from) {
            Some(k) => from <= k < cases.len() && case_accepts(selected, cases[k]) && forall|j: int|
                from <= j < k ==> !case_accepts(selected, #[trigger] cases[j]),
            None => forall|j: int| from <= j < cases.len() ==> !case_accepts(selected, #[trigger] cases[j]),
        },
    decreases cases.len() - from,
{
    if from < cases.len() && !case_accepts(selected, cases[from]) {
        lemma_first_accepting_is_first(selected, cases, from + 1);
    }
}

/// When the pointer finds nothing, only `otherwise` accepts; `otherwise` accepts every value.
pub proof fn lemma_absent_value(d: JsonData, value: JsonValue, values: Vec<String>, number: JsonNumber, target: usize)
    ensures
        case_accepts(Some(d), GateCase::Otherwise { target }),
        case_accepts(None, GateCase::Otherwise { target }),
        !case_accepts(None, GateCase::Eq { value, target }),
        !case_accepts(None, GateCase::Lt { value: number, target }),
        !case_accepts(None, GateCase::Le { value: number, target }),
        !case_accepts(None, GateCase::Ge { value: number, target }),
        !case_accepts(None, GateCase::Gt { value: number, target }),
        !case_accepts(None, GateCase::Range { lower: number, upper: number, target }),
        !case_accepts(None, GateCase::InSet { values, target }),
{
}

/// `eq` compares two numbers by value (an integer and a binary64 of the same value are equal)
/// and other values as JSON values; the comparison cases reject what is not a number.
pub proof fn lemma_eq_case(d: JsonData, value: JsonValue, number: JsonNumber, target: usize)
    ensures
        data_number(d) is Some && data_number(value@) is Some ==> (case_accepts(Some(d), GateCase::Eq { value, target })
            <==> number_order(data_number(d)->0, data_number(value@)->0) is Equal),
        data_number(d) is None || data_number(value@) is None ==> (case_accepts(Some(d), GateCase::Eq { value, target })
            <==> data_eq(d, value@)),
        data_number(d) is None ==> !case_accepts(Some(d), GateCase::Lt { value: number, target }) && !case_accepts(
            Some(d),
            GateCase::Gt { value: number, target },
        ) && !case_accepts(Some(d), GateCase::Range { lower: number, upper: number, target }),
{
}

/// `in_set` accepts exactly the texts among its values, and nothing that is not a text.
pub proof fn lemma_in_set_case(t: Seq<char>, d: JsonData, values: Vec<String>, target: usize)
    ensures
        case_accepts(Some(JsonData::Text(t)), GateCase::InSet { values, target }) <==> exists|k: int|
            0 <= k < values.len() && #[trigger] values[k]@ == t,
        !(d is Text) ==> !case_accepts(Some(d), GateCase::InSet { values, target }),
{
    let c = GateCase::InSet { values, target };
    if exists|k: int| 0 <= k < values.len() && #[trigger] values[k]@ == t {
        let k = choose|k: int| 0 <= k < values.len() && #[trigger] values[k]@ == t;
        assert(c->InSet_values[k]@ == t);
    }
    if case_accepts(Some(JsonData::Text(t)), c) {
        let k = choose|k: int| 0 <= k < c->InSet_values.len() && #[trigger] c->InSet_values[k]@ == t;
        assert(values[k]@ == t);
    }
}

fn ordering_is(o: Ordering, less: bool, equal: bool, greater: bool) -> (result: bool)
    ensures
        result == ((o is Less && less) || (o is Equal && equal) || (o is Greater && greater)),
{
    match o {
        Ordering::Less => less,
        Ordering::Equal => equal,
        Ordering::Greater => greater,
    }
}

/// Whether the value is a number that compares to `configured` as one of the flags allows.
fn numeric_match(selected: Option<&JsonValue>, configured: JsonNumber, less: bool, equal: bool, greater: bool) -> (result: bool)
    requires
        selected is Some ==> selected->0.wf(),
        configured.wf(),
    ensures
        result == match selected {
            Some(v) => match data_number(v@) {
                Some(n) => (number_order(n, configured) is Less && less) || (number_order(n, configured) is Equal && equal)
                    || (number_order(n, configured) is Greater && greater),
                None => false,
            },
            None => false,
        },
{
    match selected {
        Some(v) => match json_number(v) {
            Some(n) => ordering_is(compare_numbers(n, configured), less, equal, greater),
            None => false,
        },
        None => false,
    }
}

/// Equality of a selected value and a configured one.
pub fn json_equal(left: &JsonValue, right: &JsonValue) -> (result: bool)
    requires
        left.wf(),
        right.wf(),
    ensures
        result == values_equal(left@, right@),
{
    match (json_number(left), json_number(right)) {
        (Some(a), Some(b)) => ordering_is(compare_numbers(a, b), false, true, false),
        _ => left.equals(right),
    }
}

/// Whether the list holds the text.
fn holds_text(values: &Vec<String>, t: &str) -> (result: bool)
    ensures
        result == exists|k: int| 0 <= k < values.len() && #[trigger] values[k]@ == t@,
{
    let mut k: usize = 0;
    while k < values.len()
        invariant
            k <= values.len(),
            forall|q: int| 0 <= q < k ==> values[q]@ != t@,
        decreases values.len() - k,
    {
        if text_eq(values[k].as_str(), t) {
            assert(values[k as int]@ == t@);
            return true;
        }
        k = k + 1;
    }
    false
}

/// Whether one case accepts the value.
fn accepts(selected: Option<&JsonValue>, case: &GateCase) -> (result: bool)
    requires
        selected is Some ==> selected->0.wf(),
        case.wf(usize::MAX as int + 1),
    ensures
        result == case_accepts(crate::json_value::opt_data(selected), *case),
{
    match case {
        GateCase::Eq { value, .. } => match selected {
            Some(v) => json_equal(v, value),
            None => false,
        },
        GateCase::Lt { value, .. } => numeric_match(selected, *value, true, false, false),
        GateCase::Le { value, .. } => numeric_match(selected, *value, true, true, false),
        GateCase::Ge { value, .. } => numeric_match(selected, *value, false, true, true),
        GateCase::Gt { value, .. } => numeric_match(selected, *value, false, false, true),
        GateCase::Range { lower, upper, .. } => numeric_match(selected, *lower, false, true, true) && numeric_match(
            selected,
            *upper,
            true,
            true,
            false,
        ),
        GateCase::InSet { values, .. } => match selected {
            Some(v) => match v.string() {
                Some(t) => holds_text(values, t),
                None => false,
            },
            None => false,
        },
        GateCase::Otherwise { .. } => true,
    }
}

fn case_target(case: &GateCase) -> (result: (usize, &'static str))
    ensures
        result.0 == case.target_spec(),
        result.1@ == case_operator(*case),
{
    match case {
        GateCase::Eq { target, .. } => (*target, "eq"),
        GateCase::Lt { target, .. } => (*target, "lt"),
        GateCase::Le { target, .. } => (*target, "le"),
        GateCase::Ge { target, .. } => (*target, "ge"),
        GateCase::Gt { target, .. } => (*target, "gt"),
        GateCase::Range { target, .. } => (*target, "in_range"),
        GateCase::InSet { target, .. } => (*target, "in_set"),
        GateCase::Otherwise { target } => (*target, "otherwise"),
    }
}

/// The target and operator of the first case that accepts the selected value.
pub fn select_case(selected: Option<&JsonValue>, cases: &Vec<GateCase>) -> (result: (usize, &'static str))
    requires
        selected is Some ==> selected->0.wf(),
        forall|k: int| 0 <= k < cases.len() ==> (#[trigger] cases[k]).wf(usize::MAX as int + 1),
        has_otherwise(cases@),
    ensures
        first_accepting(crate::json_value::opt_data(selected), cases@, 0) is Some,
        result.0 == cases@[first_accepting(crate::json_value::opt_data(selected), cases@, 0)->0].target_spec(),
        result.1@ == case_operator(cases@[first_accepting(crate::json_value::opt_data(selected), cases@, 0)->0]),
{
    let ghost sel = crate::json_value::opt_data(selected);
    proof {
        lemma_otherwise_accepts(sel, cases@, 0);
    }
    let mut k: usize = 0;
    while k < cases.len()
        invariant
            k <= cases.len(),
            sel == crate::json_value::opt_data(selected),
            selected is Some ==> selected->0.wf(),
            forall|q: int| 0 <= q < cases.len() ==> (#[trigger] cases[q]).wf(usize::MAX as int + 1),
            first_accepting(sel, cases@, 0) == first_accepting(sel, cases@, k as int),
            first_accepting(sel, cases@, 0) is Some,
        decreases cases.len() - k,
    {
        if accepts(selected, &cases[k]) {
            assert(first_accepting(sel, cases@, k as int) == Some(k as int));
            return case_target(&cases[k]);
        }
        k = k + 1;
    }
    assert(first_accepting(sel, cases@, k as int) is None);
    case_target(&cases[0])
}

} // verus!
