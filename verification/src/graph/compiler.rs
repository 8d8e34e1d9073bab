//! Compiles a specification into a graph of nodes addressed by index.
use vstd::prelude::*;
use vstd::hash_map::StringHashMap;

use super::model::{Branch, CompiledGraph, ConvergeInput, GateCase, JsonNumber, Mapping, Node, NodeKind, ValueType,
    WeightedRoute};
use super::numbers::{data_number, json_number, value_type_named};
use super::semantics::gate_validation::{member_number, member_text};
use super::semantics::ids::{node_field, node_text, text_of};
use crate::json_parsing::pointer::{pointer_keys, JsonPointer};
use crate::json_value::{array_data, data_text, data_wf, member, member_get, object_data, JsonData, JsonValue};
use crate::text::{owned, text_eq};

verus! {

/// The last node whose `id` is the text.
pub open spec fn last_named(nodes: Seq<JsonData>, id: Seq<char>) -> Option<int>
    decreases nodes.len(),
{
    if nodes.len() == 0 {
        None
    } else if node_text(nodes.last(), "id"@) == Some(id) {
        Some(nodes.len() - 1)
    } else {
        last_named(nodes.drop_last(), id)
    }
}

/// The node a member of an object names.
pub open spec fn link(nodes: Seq<JsonData>, node: JsonData, key: Seq<char>) -> Option<int> {
    match node_text(node, key) {
        Some(t) => last_named(nodes, t),
        None => None,
    }
}

/// An optional index as an integer.
pub open spec fn index_of(o: Option<usize>) -> Option<int> {
    match o {
        Some(i) => Some(i as int),
        None => None,
    }
}

/// A text is a JSON Pointer.
pub open spec fn parses(t: Option<Seq<char>>) -> bool {
    t is Some && pointer_keys(t->0) is Some
}

/// A mapping compiles: an object with a pointer `target`, a pointer `path-to-source` if that
/// is a string, and a known `type`.
pub open spec fn mapping_compiles(m: JsonData) -> bool {
    match m {
        JsonData::Object(mm) => parses(member_text(mm, "target"@))
            && (member_text(mm, "path-to-source"@) is Some ==> parses(member_text(mm, "path-to-source"@)))
            && member_text(mm, "type"@) is Some && value_type_named(member_text(mm, "type"@)->0) is Some,
        _ => false,
    }
}

/// A compiled mapping carries what the object says.
pub open spec fn mapping_compiled(m: JsonData, mapping: Mapping) -> bool {
    match m {
        JsonData::Object(mm) => {
            &&& Some(mapping.target.source_view()) == member_text(mm, "target"@)
            &&& match member_text(mm, "path-to-source"@) {
                Some(s) => mapping.source is Some && mapping.source->0.source_view() == s,
                None => mapping.source is None,
            }
            &&& match member(mm, "default"@) {
                Some(d) => mapping.default is Some && mapping.default->0@ == d,
                None => mapping.default is None,
            }
            &&& Some(mapping.value_type) == value_type_named(member_text(mm, "type"@)->0)
        },
        _ => false,
    }
}

/// A string list.
pub open spec fn all_texts(items: Seq<JsonData>) -> bool {
    forall|k: int| 0 <= k < items.len() ==> (#[trigger] items[k]) is Text
}

/// A case compiles: an object whose target names a node and whose operator has its operands.
pub open spec fn case_compiles(nodes: Seq<JsonData>, c: JsonData) -> bool {
    match c {
        JsonData::Object(cm) => {
            let op = member_text(cm, "operator"@);
            &&& link(nodes, c, "target"@) is Some
            &&& op is Some
            &&& if op == Some("eq"@) {
                member(cm, "value"@) is Some
            } else if op == Some("lt"@) || op == Some("le"@) || op == Some("ge"@) || op == Some("gt"@) {
                member_number(cm, "value"@) is Some
            } else if op == Some("in_range"@) {
                member_number(cm, "lower"@) is Some && member_number(cm, "upper"@) is Some
            } else if op == Some("in_set"@) {
                match member(cm, "values"@) {
                    Some(JsonData::Array(items)) => all_texts(items),
                    _ => false,
                }
            } else {
                op == Some("otherwise"@)
            }
        },
        _ => false,
    }
}

/// A compiled case carries what the object says.
pub open spec fn case_compiled(nodes: Seq<JsonData>, c: JsonData, case: GateCase) -> bool {
    match c {
        JsonData::Object(cm) => {
            let op = member_text(cm, "operator"@);
            &&& Some(case.target_spec() as int) == link(nodes, c, "target"@)
            &&& match case {
                GateCase::Eq { value, .. } => op == Some("eq"@) && member(cm, "value"@) == Some(value@),
                GateCase::Lt { value, .. } => op == Some("lt"@) && member_number(cm, "value"@) == Some(value),
                GateCase::Le { value, .. } => op == Some("le"@) && member_number(cm, "value"@) == Some(value),
                GateCase::Ge { value, .. } => op == Some("ge"@) && member_number(cm, "value"@) == Some(value),
                GateCase::Gt { value, .. } => op == Some("gt"@) && member_number(cm, "value"@) == Some(value),
                GateCase::Range { lower, upper, .. } => op == Some("in_range"@) && member_number(cm, "lower"@) == Some(lower)
                    && member_number(cm, "upper"@) == Some(upper),
                GateCase::InSet { values, .. } => op == Some("in_set"@) && match member(cm, "values"@) {
                    Some(JsonData::Array(items)) => values.len() == items.len() && forall|k: int|
                        0 <= k < items.len() ==> #[trigger] items[k] == JsonData::Text(values[k]@),
                    _ => false,
                },
                GateCase::Otherwise { .. } => op == Some("otherwise"@),
            }
        },
        _ => false,
    }
}

/// A route compiles: an object with a numeric weight and a target naming a node.
pub open spec fn route_compiles(nodes: Seq<JsonData>, r: JsonData) -> bool {
    match r {
        JsonData::Object(rm) => member_number(rm, "weight"@) is Some && link(nodes, r, "target"@) is Some,
        _ => false,
    }
}

/// A branch compiles: an object with a string `id` and a target naming a node.
pub open spec fn branch_compiles(nodes: Seq<JsonData>, b: JsonData) -> bool {
    b is Object && node_text(b, "id"@) is Some && link(nodes, b, "target"@) is Some
}

/// An input compiles: its source names a node.
pub open spec fn input_compiles(nodes: Seq<JsonData>, input: (Seq<char>, JsonData)) -> bool {
    match input.1 {
        JsonData::Text(s) => last_named(nodes, s) is Some,
        _ => false,
    }
}

/// Every entry of a list member compiles.
pub open spec fn list_of(node: JsonData, key: Seq<char>) -> Option<Seq<JsonData>> {
    match node_field(node, key) {
        Some(JsonData::Array(items)) => Some(items),
        _ => None,
    }
}

/// A node compiles: an object with a string `id` and a known `type` whose members compile.
pub open spec fn node_compiles(nodes: Seq<JsonData>, raw: JsonData) -> bool {
    let kind = node_text(raw, "type"@);
    &&& raw is Object
    &&& node_text(raw, "id"@) is Some
    &&& kind is Some
    &&& if kind == Some("task"@) {
        node_text(raw, "task"@) is Some
    } else if kind == Some("map-schema"@) {
        list_of(raw, "mappings"@) is Some && forall|k: int| 0 <= k < list_of(raw, "mappings"@)->0.len()
            ==> mapping_compiles(#[trigger] list_of(raw, "mappings"@)->0[k])
    } else if kind == Some("deterministic-gate"@) {
        parses(node_text(raw, "select"@)) && list_of(raw, "cases"@) is Some && forall|k: int|
            0 <= k < list_of(raw, "cases"@)->0.len() ==> case_compiles(nodes, #[trigger] list_of(raw, "cases"@)->0[k])
    } else if kind == Some("randomised-gate"@) {
        list_of(raw, "routes"@) is Some && forall|k: int| 0 <= k < list_of(raw, "routes"@)->0.len() ==> route_compiles(
            nodes,
            #[trigger] list_of(raw, "routes"@)->0[k],
        )
    } else if kind == Some("fan-out"@) {
        list_of(raw, "branches"@) is Some && forall|k: int| 0 <= k < list_of(raw, "branches"@)->0.len() ==> branch_compiles(
            nodes,
            #[trigger] list_of(raw, "branches"@)->0[k],
        )
    } else if kind == Some("converge"@) {
        match node_field(raw, "inputs"@) {
            Some(JsonData::Object(inputs)) => forall|k: int| 0 <= k < inputs.len() ==> input_compiles(nodes, #[trigger] inputs[k]),
            _ => false,
        }
    } else if kind == Some("raise-error"@) {
        node_text(raw, "message"@) is Some
    } else {
        false
    }
}

/// A compiled node carries what the object says.
pub open spec fn node_compiled(nodes: Seq<JsonData>, raw: JsonData, node: Node) -> bool {
    &&& Some(node.id@) == node_text(raw, "id"@)
    &&& match node.kind {
        NodeKind::Task { task, next } => node_text(raw, "type"@) == Some("task"@) && Some(task@) == node_text(raw, "task"@)
            && index_of(next) == link(nodes, raw, "next"@),
        NodeKind::MapSchema { mappings, next } => node_text(raw, "type"@) == Some("map-schema"@) && index_of(next) == link(
            nodes,
            raw,
            "next"@,
        ) && mappings.len() == list_of(raw, "mappings"@)->0.len() && forall|k: int| 0 <= k < mappings.len()
            ==> mapping_compiled(list_of(raw, "mappings"@)->0[k], #[trigger] mappings[k]),
        NodeKind::Deterministic { select, cases } => node_text(raw, "type"@) == Some("deterministic-gate"@) && Some(
            select.source_view(),
        ) == node_text(raw, "select"@) && cases.len() == list_of(raw, "cases"@)->0.len() && forall|k: int|
            0 <= k < cases.len() ==> case_compiled(nodes, list_of(raw, "cases"@)->0[k], #[trigger] cases[k]),
        NodeKind::Randomised { routes } => node_text(raw, "type"@) == Some("randomised-gate"@) && routes.len() == list_of(
            raw,
            "routes"@,
        )->0.len() && forall|k: int| 0 <= k < routes.len() ==> {
            let r = list_of(raw, "routes"@)->0[k];
            &&& Some((#[trigger] routes[k]).weight) == member_number(r->Object_0, "weight"@)
            &&& Some(routes[k].target as int) == link(nodes, r, "target"@)
        },
        NodeKind::FanOut { branches } => node_text(raw, "type"@) == Some("fan-out"@) && branches.len() == list_of(
            raw,
            "branches"@,
        )->0.len() && forall|k: int| 0 <= k < branches.len() ==> {
            let b = list_of(raw, "branches"@)->0[k];
            &&& Some((#[trigger] branches[k]).flow_id@) == node_text(b, "id"@)
            &&& Some(branches[k].target as int) == link(nodes, b, "target"@)
        },
        NodeKind::Converge { inputs, next } => node_text(raw, "type"@) == Some("converge"@) && index_of(next) == link(
            nodes,
            raw,
            "next"@,
        ) && match node_field(raw, "inputs"@) {
            Some(JsonData::Object(members)) => inputs.len() == members.len() && forall|k: int| 0 <= k < inputs.len() ==> {
                &&& (#[trigger] inputs[k]).flow_id@ == members[k].0
                &&& data_text(members[k].1) is Some
                &&& Some(inputs[k].source as int) == last_named(nodes, data_text(members[k].1)->0)
            },
            _ => false,
        },
        NodeKind::Raise { message } => node_text(raw, "type"@) == Some("raise-error"@) && Some(message@) == node_text(
            raw,
            "message"@,
        ),
    }
}

/// The root names the entry and output, every node compiles.
pub open spec fn graph_compiles(value: JsonData) -> bool {
    match value {
        JsonData::Object(root) => match member(root, "nodes"@) {
            Some(JsonData::Array(nodes)) => {
                &&& forall|i: int| 0 <= i < nodes.len() ==> node_compiles(nodes, #[trigger] nodes[i])
                &&& link(nodes, value, "entry"@) is Some
                &&& link(nodes, value, "output"@) is Some
            },
            _ => false,
        },
        _ => false,
    }
}

/// The compiled graph carries what the specification says.
pub open spec fn graph_compiled(value: JsonData, graph: CompiledGraph) -> bool {
    match value {
        JsonData::Object(root) => match member(root, "nodes"@) {
            Some(JsonData::Array(nodes)) => {
                &&& graph.nodes.len() == nodes.len()
                &&& forall|i: int| 0 <= i < nodes.len() ==> node_compiled(nodes, nodes[i], #[trigger] graph.nodes[i])
                &&& Some(graph.entry as int) == link(nodes, value, "entry"@)
                &&& Some(graph.output as int) == link(nodes, value, "output"@)
            },
            _ => false,
        },
        _ => false,
    }
}

/// The last node named is a node that has that name.
pub proof fn lemma_last_named(nodes: Seq<JsonData>, id: Seq<char>)
    ensures
        last_named(nodes, id) is Some ==> 0 <= last_named(nodes, id)->0 < nodes.len()
            && node_text(nodes[last_named(nodes, id)->0], "id"@) == Some(id),
    decreases nodes.len(),
{
    if nodes.len() > 0 && node_text(nodes.last(), "id"@) != Some(id) {
        lemma_last_named(nodes.drop_last(), id);
    }
}

proof fn lemma_last_named_step(nodes: Seq<JsonData>, i: int, id: Seq<char>)
    requires
        0 <= i < nodes.len(),
    ensures
        last_named(nodes.take(i + 1), id) == if node_text(nodes[i], "id"@) == Some(id) {
            Some(i)
        } else {
            last_named(nodes.take(i), id)
        },
{
    assert(nodes.take(i + 1).drop_last() =~= nodes.take(i));
}

/// The names of the nodes: for each `id`, the last node that has it. None when a node is not
/// an object with a string `id`.
fn name_nodes(nodes: &Vec<JsonValue>) -> (result: Option<StringHashMap<usize>>)
    ensures
        result is Some <==> forall|i: int| 0 <= i < nodes.len() ==> (#[trigger] array_data(*nodes)[i]) is Object
            && node_text(array_data(*nodes)[i], "id"@) is Some,
        result is Some ==> forall|id: Seq<char>| #[trigger] result->0@.contains_key(id) <==> last_named(array_data(*nodes), id) is Some,
        result is Some ==> forall|id: Seq<char>| result->0@.contains_key(id) ==> Some(#[trigger] result->0@[id] as int)
            == last_named(array_data(*nodes), id),
{
    let ghost nd = array_data(*nodes);
    let mut names: StringHashMap<usize> = StringHashMap::new();
    let mut i: usize = 0;
    while i < nodes.len()
        invariant
            i <= nodes.len(),
            nd == array_data(*nodes),
            nd.len() == nodes.len(),
            forall|j: int| 0 <= j < i ==> (#[trigger] nd[j]) is Object && node_text(nd[j], "id"@) is Some,
            forall|id: Seq<char>| #[trigger] names@.contains_key(id) <==> last_named(nd.take(i as int), id) is Some,
            forall|id: Seq<char>| names@.contains_key(id) ==> Some(#[trigger] names@[id] as int) == last_named(nd.take(i as int), id),
        decreases nodes.len() - i,
    {
        assert(nd[i as int] == nodes[i as int]@);
        if nodes[i].object().is_none() {
            return None;
        }
        let id = match text_of(&nodes[i], "id") {
            Some(t) => t,
            None => return None,
        };
        proof {
            assert forall|x: Seq<char>| #![trigger last_named(nd.take(i + 1), x)] true implies last_named(nd.take(i + 1), x) == if node_text(nd[i as int], "id"@) == Some(x) {
                Some(i as int)
            } else {
                last_named(nd.take(i as int), x)
            } by {
                lemma_last_named_step(nd, i as int, x);
            }
        }
        names.insert(owned(id), i);
        i = i + 1;
    }
    assert(nd.take(nodes.len() as int) =~= nd);
    Some(names)
}

/// The map gives, for each name, the last node that has it.
pub open spec fn names_describe(names: Map<Seq<char>, usize>, nodes: Seq<JsonData>) -> bool {
    &&& forall|x: Seq<char>| #[trigger] names.contains_key(x) <==> last_named(nodes, x) is Some
    &&& forall|x: Seq<char>| names.contains_key(x) ==> Some(#[trigger] names[x] as int) == last_named(nodes, x)
}

/// The node a name designates.
fn named(names: &StringHashMap<usize>, id: &str, nodes: Ghost<Seq<JsonData>>) -> (result: Option<usize>)
    requires
        names_describe(names@, nodes@),
    ensures
        index_of(result) == last_named(nodes@, id@),
        result is Some ==> (result->0 as int) < nodes@.len(),
{
    proof {
        lemma_last_named(nodes@, id@);
    }
    match names.get(id) {
        Some(i) => Some(*i),
        None => None,
    }
}

/// The node a member of an object names.
fn linked(node: &JsonValue, key: &str, names: &StringHashMap<usize>, nodes: Ghost<Seq<JsonData>>) -> (result: Option<usize>)
    requires
        names_describe(names@, nodes@),
    ensures
        index_of(result) == link(nodes@, node@, key@),
        result is Some ==> (result->0 as int) < nodes@.len(),
{
    match text_of(node, key) {
        Some(id) => named(names, id, nodes),
        None => None,
    }
}

fn member_text_of<'a>(c: &'a Vec<(String, JsonValue)>, key: &str) -> (result: Option<&'a str>)
    ensures
        match result {
            Some(t) => member_text(object_data(*c), key@) == Some(t@),
            None => member_text(object_data(*c), key@) is None,
        },
{
    match member_get(c, key) {
        Some(v) => v.string(),
        None => None,
    }
}

fn member_number_of(c: &Vec<(String, JsonValue)>, key: &str) -> (result: Option<JsonNumber>)
    requires
        data_wf(JsonData::Object(object_data(*c))),
    ensures
        result == member_number(object_data(*c), key@),
        result is Some ==> result->0.wf(),
{
    proof {
        crate::json_value::lemma_member_data_wf(object_data(*c), key@);
    }
    match member_get(c, key) {
        Some(v) => json_number(v),
        None => None,
    }
}

/// Compiles one mapping.
fn parse_mapping(value: &JsonValue) -> (result: Option<Mapping>)
    requires
        value.wf(),
    ensures
        result is Some <==> mapping_compiles(value@),
        result is Some ==> mapping_compiled(value@, result->0) && result->0.wf(),
{
    let m = match value.object() {
        Some(m) => m,
        None => return None,
    };
    let ghost md = object_data(*m);
    proof {
        crate::json_value::lemma_member_data_wf(md, "default"@);
    }
    let target = match member_text_of(m, "target") {
        Some(t) => match JsonPointer::parse(t) {
            Some(p) => p,
            None => return None,
        },
        None => return None,
    };
    let source = match member_text_of(m, "path-to-source") {
        Some(s) => match JsonPointer::parse(s) {
            Some(p) => Some(p),
            None => return None,
        },
        None => None,
    };
    let default = match member_get(m, "default") {
        Some(d) => Some(d.duplicate()),
        None => None,
    };
    let value_type = match member_text_of(m, "type") {
        Some(t) => match ValueType::parse(t) {
            Some(v) => v,
            None => return None,
        },
        None => return None,
    };
    Some(Mapping { target, source, default, value_type })
}

/// The texts of a list of strings; None when an item is not a string.
fn text_values(items: &Vec<JsonValue>) -> (result: Option<Vec<String>>)
    ensures
        result is Some <==> all_texts(array_data(*items)),
        result is Some ==> result->0.len() == items.len() && forall|q: int| 0 <= q < items.len()
            ==> #[trigger] array_data(*items)[q] == JsonData::Text(result->0[q]@),
{
    let ghost id = array_data(*items);
    let mut values: Vec<String> = Vec::new();
    let mut k: usize = 0;
    while k < items.len()
        invariant
            k <= items.len(),
            id == array_data(*items),
            id.len() == items.len(),
            values.len() == k,
            forall|q: int| 0 <= q < k ==> #[trigger] id[q] == JsonData::Text(values[q]@),
        decreases items.len() - k,
    {
        assert(id[k as int] == items[k as int]@);
        match items[k].string() {
            Some(t) => values.push(owned(t)),
            None => {
                assert(!(id[k as int] is Text));
                return None;
            },
        }
        k = k + 1;
    }
    assert(all_texts(id));
    Some(values)
}

/// Compiles one gate case.
fn parse_case(value: &JsonValue, names: &StringHashMap<usize>, nodes: Ghost<Seq<JsonData>>) -> (result: Option<GateCase>)
    requires
        value.wf(),
        names_describe(names@, nodes@),
    ensures
        result is Some <==> case_compiles(nodes@, value@),
        result is Some ==> case_compiled(nodes@, value@, result->0) && result->0.wf(nodes@.len() as int),
{
    let c = match value.object() {
        Some(c) => c,
        None => return None,
    };
    let ghost cd = object_data(*c);
    proof {
        crate::json_value::lemma_member_data_wf(cd, "value"@);
    }
    let target = match linked(value, "target", names, nodes) {
        Some(t) => t,
        None => return None,
    };
    let op = match member_text_of(c, "operator") {
        Some(op) => op,
        None => return None,
    };
    if text_eq(op, "eq") {
        match member_get(c, "value") {
            Some(v) => Some(GateCase::Eq { value: v.duplicate(), target }),
            None => None,
        }
    } else if text_eq(op, "lt") {
        match member_number_of(c, "value") {
            Some(v) => Some(GateCase::Lt { value: v, target }),
            None => None,
        }
    } else if text_eq(op, "le") {
        match member_number_of(c, "value") {
            Some(v) => Some(GateCase::Le { value: v, target }),
            None => None,
        }
    } else if text_eq(op, "ge") {
        match member_number_of(c, "value") {
            Some(v) => Some(GateCase::Ge { value: v, target }),
            None => None,
        }
    } else if text_eq(op, "gt") {
        match member_number_of(c, "value") {
            Some(v) => Some(GateCase::Gt { value: v, target }),
            None => None,
        }
    } else if text_eq(op, "in_range") {
        match (member_number_of(c, "lower"), member_number_of(c, "upper")) {
            (Some(lower), Some(upper)) => Some(GateCase::Range { lower, upper, target }),
            _ => None,
        }
    } else if text_eq(op, "in_set") {
        let items = match member_get(c, "values") {
            Some(v) => match v.array() {
                Some(items) => items,
                None => return None,
            },
            None => return None,
        };
        let ghost id = array_data(*items);
        assert(member(cd, "values"@) == Some(JsonData::Array(id)));
        let values = match text_values(items) {
            Some(v) => v,
            None => return None,
        };
        Some(GateCase::InSet { values, target })
    } else if text_eq(op, "otherwise") {
        Some(GateCase::Otherwise { target })
    } else {
        None
    }
}

/// The items of a list member of a node.
fn list_field<'a>(node: &'a JsonValue, key: &str) -> (result: Option<&'a Vec<JsonValue>>)
    ensures
        match result {
            Some(items) => list_of(node@, key@) == Some(array_data(*items)),
            None => list_of(node@, key@) is None,
        },
{
    match super::semantics::ids::field_of(node, key) {
        Some(v) => v.array(),
        None => None,
    }
}

/// Items of well-formed data are well formed.
proof fn lemma_items_wf(node: JsonData, key: Seq<char>)
    requires
        data_wf(node),
    ensures
        list_of(node, key) is Some ==> forall|k: int| 0 <= k < list_of(node, key)->0.len() ==> data_wf(#[trigger] list_of(node, key)->0[k]),
{
    if node is Object {
        crate::json_value::lemma_member_data_wf(node->Object_0, key);
    }
}

/// Compiles the mappings of a map-schema node.
fn compile_mappings(items: &Vec<JsonValue>) -> (result: Option<Vec<Mapping>>)
    requires
        forall|k: int| 0 <= k < items.len() ==> (#[trigger] items[k]).wf(),
    ensures
        result is Some <==> forall|k: int| 0 <= k < items.len() ==> mapping_compiles(#[trigger] array_data(*items)[k]),
        result is Some ==> result->0.len() == items.len() && forall|k: int| 0 <= k < items.len()
            ==> mapping_compiled(array_data(*items)[k], #[trigger] result->0[k]) && result->0[k].wf(),
{
    let ghost id = array_data(*items);
    let mut out: Vec<Mapping> = Vec::new();
    let mut k: usize = 0;
    while k < items.len()
        invariant
            k <= items.len(),
            id == array_data(*items),
            id.len() == items.len(),
            forall|q: int| 0 <= q < items.len() ==> (#[trigger] items[q]).wf(),
            out.len() == k,
            forall|q: int| 0 <= q < k ==> mapping_compiles(#[trigger] id[q]),
            forall|q: int| 0 <= q < k ==> mapping_compiled(id[q], #[trigger] out[q]) && out[q].wf(),
        decreases items.len() - k,
    {
        assert(id[k as int] == items[k as int]@);
        match parse_mapping(&items[k]) {
            Some(m) => out.push(m),
            None => return None,
        }
        k = k + 1;
    }
    Some(out)
}

/// Compiles the cases of a deterministic gate.
fn compile_cases(items: &Vec<JsonValue>, names: &StringHashMap<usize>, nodes: Ghost<Seq<JsonData>>) -> (result: Option<Vec<GateCase>>)
    requires
        forall|k: int| 0 <= k < items.len() ==> (#[trigger] items[k]).wf(),
        names_describe(names@, nodes@),
    ensures
        result is Some <==> forall|k: int| 0 <= k < items.len() ==> case_compiles(nodes@, #[trigger] array_data(*items)[k]),
        result is Some ==> result->0.len() == items.len() && forall|k: int| 0 <= k < items.len()
            ==> case_compiled(nodes@, array_data(*items)[k], #[trigger] result->0[k]) && result->0[k].wf(nodes@.len() as int),
{
    let ghost id = array_data(*items);
    let mut out: Vec<GateCase> = Vec::new();
    let mut k: usize = 0;
    while k < items.len()
        invariant
            k <= items.len(),
            id == array_data(*items),
            id.len() == items.len(),
            forall|q: int| 0 <= q < items.len() ==> (#[trigger] items[q]).wf(),
            names_describe(names@, nodes@),
            out.len() == k,
            forall|q: int| 0 <= q < k ==> case_compiles(nodes@, #[trigger] id[q]),
            forall|q: int| 0 <= q < k ==> case_compiled(nodes@, id[q], #[trigger] out[q]) && out[q].wf(nodes@.len() as int),
        decreases items.len() - k,
    {
        assert(id[k as int] == items[k as int]@);
        match parse_case(&items[k], names, nodes) {
            Some(c) => out.push(c),
            None => return None,
        }
        k = k + 1;
    }
    Some(out)
}

/// Compiles the routes of a randomised gate.
fn compile_routes(items: &Vec<JsonValue>, names: &StringHashMap<usize>, nodes: Ghost<Seq<JsonData>>) -> (result: Option<Vec<WeightedRoute>>)
    requires
        forall|k: int| 0 <= k < items.len() ==> (#[trigger] items[k]).wf(),
        names_describe(names@, nodes@),
    ensures
        result is Some <==> forall|k: int| 0 <= k < items.len() ==> route_compiles(nodes@, #[trigger] array_data(*items)[k]),
        result is Some ==> result->0.len() == items.len() && forall|k: int| 0 <= k < items.len() ==> {
            let r = array_data(*items)[k];
            &&& Some((#[trigger] result->0[k]).weight) == member_number(r->Object_0, "weight"@)
            &&& Some(result->0[k].target as int) == link(nodes@, r, "target"@)
            &&& result->0[k].target < nodes@.len()
            &&& result->0[k].weight.wf()
        },
{
    let ghost id = array_data(*items);
    let mut out: Vec<WeightedRoute> = Vec::new();
    let mut k: usize = 0;
    while k < items.len()
        invariant
            k <= items.len(),
            id == array_data(*items),
            id.len() == items.len(),
            forall|q: int| 0 <= q < items.len() ==> (#[trigger] items[q]).wf(),
            names_describe(names@, nodes@),
            out.len() == k,
            forall|q: int| 0 <= q < k ==> route_compiles(nodes@, #[trigger] id[q]),
            forall|q: int| 0 <= q < k ==> {
                let r = id[q];
                &&& Some((#[trigger] out[q]).weight) == member_number(r->Object_0, "weight"@)
                &&& Some(out[q].target as int) == link(nodes@, r, "target"@)
                &&& out[q].target < nodes@.len()
                &&& out[q].weight.wf()
            },
        decreases items.len() - k,
    {
        assert(id[k as int] == items[k as int]@);
        let r = match items[k].object() {
            Some(r) => r,
            None => return None,
        };
        let weight = match member_number_of(r, "weight") {
            Some(w) => w,
            None => return None,
        };
        let target = match linked(&items[k], "target", names, nodes) {
            Some(t) => t,
            None => return None,
        };
        out.push(WeightedRoute { weight, target });
        k = k + 1;
    }
    Some(out)
}

/// Compiles the branches of a fan-out.
fn compile_branches(items: &Vec<JsonValue>, names: &StringHashMap<usize>, nodes: Ghost<Seq<JsonData>>) -> (result: Option<Vec<Branch>>)
    requires
        names_describe(names@, nodes@),
    ensures
        result is Some <==> forall|k: int| 0 <= k < items.len() ==> branch_compiles(nodes@, #[trigger] array_data(*items)[k]),
        result is Some ==> result->0.len() == items.len() && forall|k: int| 0 <= k < items.len() ==> {
            let b = array_data(*items)[k];
            &&& Some((#[trigger] result->0[k]).flow_id@) == node_text(b, "id"@)
            &&& Some(result->0[k].target as int) == link(nodes@, b, "target"@)
            &&& result->0[k].target < nodes@.len()
        },
{
    let ghost id = array_data(*items);
    let mut out: Vec<Branch> = Vec::new();
    let mut k: usize = 0;
    while k < items.len()
        invariant
            k <= items.len(),
            id == array_data(*items),
            id.len() == items.len(),
            names_describe(names@, nodes@),
            out.len() == k,
            forall|q: int| 0 <= q < k ==> branch_compiles(nodes@, #[trigger] id[q]),
            forall|q: int| 0 <= q < k ==> {
                let b = id[q];
                &&& Some((#[trigger] out[q]).flow_id@) == node_text(b, "id"@)
                &&& Some(out[q].target as int) == link(nodes@, b, "target"@)
                &&& out[q].target < nodes@.len()
            },
        decreases items.len() - k,
    {
        assert(id[k as int] == items[k as int]@);
        if items[k].object().is_none() {
            return None;
        }
        let flow_id = match text_of(&items[k], "id") {
            Some(t) => owned(t),
            None => return None,
        };
        let target = match linked(&items[k], "target", names, nodes) {
            Some(t) => t,
            None => return None,
        };
        out.push(Branch { flow_id, target });
        k = k + 1;
    }
    Some(out)
}

/// Compiles the inputs of a convergence node.
fn compile_inputs(members: &Vec<(String, JsonValue)>, names: &StringHashMap<usize>, nodes: Ghost<Seq<JsonData>>) -> (result: Option<Vec<ConvergeInput>>)
    requires
        names_describe(names@, nodes@),
    ensures
        result is Some <==> forall|k: int| 0 <= k < members.len() ==> input_compiles(nodes@, #[trigger] object_data(*members)[k]),
        result is Some ==> result->0.len() == members.len() && forall|k: int| 0 <= k < members.len() ==> {
            let m = object_data(*members)[k];
            &&& (#[trigger] result->0[k]).flow_id@ == m.0
            &&& data_text(m.1) is Some
            &&& Some(result->0[k].source as int) == last_named(nodes@, data_text(m.1)->0)
            &&& result->0[k].source < nodes@.len()
        },
{
    let ghost md = object_data(*members);
    let mut out: Vec<ConvergeInput> = Vec::new();
    let mut k: usize = 0;
    while k < members.len()
        invariant
            k <= members.len(),
            md == object_data(*members),
            md.len() == members.len(),
            names_describe(names@, nodes@),
            out.len() == k,
            forall|q: int| 0 <= q < k ==> input_compiles(nodes@, #[trigger] md[q]),
            forall|q: int| 0 <= q < k ==> {
                let m = md[q];
                &&& (#[trigger] out[q]).flow_id@ == m.0
                &&& data_text(m.1) is Some
                &&& Some(out[q].source as int) == last_named(nodes@, data_text(m.1)->0)
                &&& out[q].source < nodes@.len()
            },
        decreases members.len() - k,
    {
        assert(md[k as int] == (members[k as int].0@, members[k as int].1@));
        let source = match members[k].1.string() {
            Some(id) => match named(names, id, nodes) {
                Some(s) => s,
                None => return None,
            },
            None => return None,
        };
        out.push(ConvergeInput { flow_id: owned(members[k].0.as_str()), source });
        k = k + 1;
    }
    Some(out)
}

/// Compiles one node.
fn compile_node(raw: &JsonValue, names: &StringHashMap<usize>, nodes: Ghost<Seq<JsonData>>) -> (result: Option<Node>)
    requires
        raw.wf(),
        names_describe(names@, nodes@),
    ensures
        result is Some <==> node_compiles(nodes@, raw@),
        result is Some ==> node_compiled(nodes@, raw@, result->0) && result->0.kind.wf(nodes@.len() as int),
{
    if raw.object().is_none() {
        return None;
    }
    let id = match text_of(raw, "id") {
        Some(t) => owned(t),
        None => return None,
    };
    let kind_text = match text_of(raw, "type") {
        Some(t) => t,
        None => return None,
    };
    proof {
        lemma_items_wf(raw@, "mappings"@);
        lemma_items_wf(raw@, "cases"@);
        lemma_items_wf(raw@, "routes"@);
    }
    let kind = if text_eq(kind_text, "task") {
        let task = match text_of(raw, "task") {
            Some(t) => owned(t),
            None => return None,
        };
        NodeKind::Task { task, next: linked(raw, "next", names, nodes) }
    } else if text_eq(kind_text, "map-schema") {
        let items = match list_field(raw, "mappings") {
            Some(items) => items,
            None => return None,
        };
        assert forall|k: int| 0 <= k < items.len() implies (#[trigger] items[k]).wf() by {
            assert(array_data(*items)[k] == items[k]@);
            assert(data_wf(list_of(raw@, "mappings"@)->0[k]));
        }
        let mappings = match compile_mappings(items) {
            Some(m) => m,
            None => {
                proof {
                    let k = choose|k: int| 0 <= k < items.len() && !mapping_compiles(#[trigger] array_data(*items)[k]);
                    assert(list_of(raw@, "mappings"@)->0[k] == array_data(*items)[k]);
                }
                return None;
            },
        };
        NodeKind::MapSchema { mappings, next: linked(raw, "next", names, nodes) }
    } else if text_eq(kind_text, "deterministic-gate") {
        let select = match text_of(raw, "select") {
            Some(t) => match JsonPointer::parse(t) {
                Some(p) => p,
                None => return None,
            },
            None => return None,
        };
        let items = match list_field(raw, "cases") {
            Some(items) => items,
            None => return None,
        };
        assert forall|k: int| 0 <= k < items.len() implies (#[trigger] items[k]).wf() by {
            assert(array_data(*items)[k] == items[k]@);
            assert(data_wf(list_of(raw@, "cases"@)->0[k]));
        }
        let cases = match compile_cases(items, names, nodes) {
            Some(c) => c,
            None => {
                proof {
                    let k = choose|k: int| 0 <= k < items.len() && !case_compiles(nodes@, #[trigger] array_data(*items)[k]);
                    assert(list_of(raw@, "cases"@)->0[k] == array_data(*items)[k]);
                }
                return None;
            },
        };
        NodeKind::Deterministic { select, cases }
    } else if text_eq(kind_text, "randomised-gate") {
        let items = match list_field(raw, "routes") {
            Some(items) => items,
            None => return None,
        };
        assert forall|k: int| 0 <= k < items.len() implies (#[trigger] items[k]).wf() by {
            assert(array_data(*items)[k] == items[k]@);
            assert(data_wf(list_of(raw@, "routes"@)->0[k]));
        }
        let routes = match compile_routes(items, names, nodes) {
            Some(r) => r,
            None => {
                proof {
                    let k = choose|k: int| 0 <= k < items.len() && !route_compiles(nodes@, #[trigger] array_data(*items)[k]);
                    assert(list_of(raw@, "routes"@)->0[k] == array_data(*items)[k]);
                }
                return None;
            },
        };
        NodeKind::Randomised { routes }
    } else if text_eq(kind_text, "fan-out") {
        let items = match list_field(raw, "branches") {
            Some(items) => items,
            None => return None,
        };
        let branches = match compile_branches(items, names, nodes) {
            Some(b) => b,
            None => {
                proof {
                    let k = choose|k: int| 0 <= k < items.len() && !branch_compiles(nodes@, #[trigger] array_data(*items)[k]);
                    assert(list_of(raw@, "branches"@)->0[k] == array_data(*items)[k]);
                }
                return None;
            },
        };
        NodeKind::FanOut { branches }
    } else if text_eq(kind_text, "converge") {
        let members = match super::semantics::ids::field_of(raw, "inputs") {
            Some(v) => match v.object() {
                Some(m) => m,
                None => return None,
            },
            None => return None,
        };
        let inputs = match compile_inputs(members, names, nodes) {
            Some(i) => i,
            None => return None,
        };
        NodeKind::Converge { inputs, next: linked(raw, "next", names, nodes) }
    } else if text_eq(kind_text, "raise-error") {
        match text_of(raw, "message") {
            Some(t) => NodeKind::Raise { message: owned(t) },
            None => return None,
        }
    } else {
        return None;
    };
    Some(Node { id, kind })
}

/// Compiles a specification: None unless every node is an object with a string `id`, a known
/// `type` and members of that type that name nodes, and the entry and output name nodes.
/// Identifiers name the last node that has them.
pub fn compile(value: &JsonValue) -> (result: Option<CompiledGraph>)
    requires
        value.wf(),
    ensures
        result is Some <==> graph_compiles(value@),
        result is Some ==> graph_compiled(value@, result->0) && result->0.wf(),
{
    let root = match value.object() {
        Some(r) => r,
        None => return None,
    };
    let ghost rd = object_data(*root);
    let raw_nodes = match member_get(root, "nodes") {
        Some(v) => match v.array() {
            Some(items) => items,
            None => return None,
        },
        None => return None,
    };
    let ghost nd = array_data(*raw_nodes);
    assert(member(rd, "nodes"@) == Some(JsonData::Array(nd)));
    proof {
        crate::json_value::lemma_member_data_wf(rd, "nodes"@);
    }
    let names = match name_nodes(raw_nodes) {
        Some(n) => n,
        None => {
            assert(!graph_compiles(value@)) by {
                let i = choose|i: int| 0 <= i < raw_nodes.len() && !((#[trigger] nd[i]) is Object && node_text(nd[i], "id"@) is Some);
                assert(!node_compiles(nd, nd[i]));
            }
            return None;
        },
    };
    let mut nodes: Vec<Node> = Vec::new();
    let mut i: usize = 0;
    while i < raw_nodes.len()
        invariant
            i <= raw_nodes.len(),
            nd == array_data(*raw_nodes),
            nd.len() == raw_nodes.len(),
            value@ == JsonData::Object(rd),
            member(rd, "nodes"@) == Some(JsonData::Array(nd)),
            forall|k: int| 0 <= k < nd.len() ==> data_wf(#[trigger] nd[k]),
            names_describe(names@, nd),
            nodes.len() == i,
            forall|k: int| 0 <= k < i ==> node_compiles(nd, #[trigger] nd[k]),
            forall|k: int| 0 <= k < i ==> node_compiled(nd, nd[k], #[trigger] nodes[k]) && nodes[k].kind.wf(nd.len() as int),
        decreases raw_nodes.len() - i,
    {
        assert(nd[i as int] == raw_nodes[i as int]@);
        match compile_node(&raw_nodes[i], &names, Ghost(nd)) {
            Some(node) => nodes.push(node),
            None => {
                assert(!node_compiles(nd, nd[i as int]));
                return None;
            },
        }
        i = i + 1;
    }
    let entry = match linked(value, "entry", &names, Ghost(nd)) {
        Some(e) => e,
        None => return None,
    };
    let output = match linked(value, "output", &names, Ghost(nd)) {
        Some(o) => o,
        None => return None,
    };
    Some(CompiledGraph { entry, output, nodes })
}

} // verus!
