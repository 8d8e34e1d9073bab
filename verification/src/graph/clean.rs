//! What a clean assessment promises: a specification in which assessment finds no issue
//! compiles.
use vstd::prelude::*;

use super::compiler::{branch_compiles, case_compiles, graph_compiles, input_compiles, last_named, link, list_of,
    mapping_compiles, node_compiles, parses, route_compiles};
use super::assessment_fits;
use super::semantics::{flat_indexed, local_issues, role_index, role_issues, semantic_issues_fit};
use super::semantics::ids::{id_target, lemma_first_index, node_field, node_text, usable_id};
use super::semantics::references::{
    convergence_refs, input_ref, list_refs, missing_fn, node_missing_fn, node_refs, reference_issues, routing_list,
    target_ref, Reference,
};
use super::structure::{field, node_fn, property_issues, required_fn, root_properties, structure_issues};
use super::structure::gate::{case_issues, case_properties};
use super::structure::mapping::mapping_issues;
use super::structure::node::{
    branch_fn, branch_issues, case_fn, converge_issues, deterministic_issues, fan_out_issues, indexed, input_fn,
    input_issues, kind_issues, map_issues, task_issues, mapping_fn, node_issues, raise_issues, randomised_issues, route_fn,
    route_issues,
};
use crate::diagnostics::{concat_indexed, IssueView};
use crate::json_parsing::pointer::{lemma_pointer_syntax_parses, pointer_keys};
use crate::json_pointer::joined;
use crate::json_value::{member, JsonData};
use crate::text::node_path;

verus! {

/// When nothing is found in a sequence, nothing is found in any of its elements.
pub proof fn lemma_nothing_found<T>(s: Seq<T>, f: spec_fn(int, T) -> Seq<IssueView>)
    requires
        concat_indexed(s, f).len() == 0,
    ensures
        forall|i: int| 0 <= i < s.len() ==> f(i, #[trigger] s[i]).len() == 0,
    decreases s.len(),
{
    if s.len() > 0 {
        lemma_nothing_found(s.drop_last(), f);
        assert forall|i: int| 0 <= i < s.len() implies f(i, #[trigger] s[i]).len() == 0 by {
            if i < s.len() - 1 {
                assert(s.drop_last()[i] == s[i]);
            }
        }
    }
}

/// What `f` yields for an element is among what it yields for the sequence.
proof fn lemma_flat_contains<T, U>(s: Seq<T>, f: spec_fn(int, T) -> Seq<U>, i: int, j: int)
    requires
        0 <= i < s.len(),
        0 <= j < f(i, s[i]).len(),
    ensures
        flat_indexed(s, f).contains(f(i, s[i])[j]),
    decreases s.len(),
{
    let left = flat_indexed(s.drop_last(), f);
    let right = f(s.len() - 1, s.last());
    assert(flat_indexed(s, f) == left + right);
    if i == s.len() - 1 {
        assert((left + right)[left.len() + j] == right[j]);
    } else {
        assert(s.drop_last()[i] == s[i]);
        lemma_flat_contains(s.drop_last(), f, i, j);
        let m = choose|m: int| 0 <= m < left.len() && left[m] == f(i, s[i])[j];
        assert((left + right)[m] == left[m]);
    }
}

/// A node whose `id` is the text makes the last such node exist.
proof fn lemma_named(nodes: Seq<JsonData>, t: Seq<char>, i: int)
    requires
        0 <= i < nodes.len(),
        node_text(nodes[i], "id"@) == Some(t),
    ensures
        last_named(nodes, t) is Some,
    decreases nodes.len(),
{
    if node_text(nodes.last(), "id"@) != Some(t) {
        assert(nodes.drop_last()[i] == nodes[i]);
        lemma_named(nodes.drop_last(), t, i);
    }
}

/// A reference of node `i` that is a usable identifier names a node, when no reference is
/// missing.
proof fn lemma_reference_links(nodes: Seq<JsonData>, i: int, r: Reference)
    requires
        reference_issues(nodes).len() == 0,
        0 <= i < nodes.len(),
        node_refs(i, nodes[i]).contains(r) || convergence_refs(i, nodes[i]).contains(r),
        usable_id(r.0),
    ensures
        last_named(nodes, r.0) is Some,
{
    lemma_nothing_found(nodes, node_missing_fn(nodes));
    assert(node_missing_fn(nodes)(i, nodes[i]).len() == 0);
    let refs = node_refs(i, nodes[i]);
    let sources = convergence_refs(i, nodes[i]);
    let f = missing_fn(nodes, "node reference"@);
    let h = missing_fn(nodes, "convergence source"@);
    assert(concat_indexed(refs, f).len() == 0 && concat_indexed(sources, h).len() == 0);
    lemma_nothing_found(refs, f);
    lemma_nothing_found(sources, h);
    if refs.contains(r) {
        let k = choose|k: int| 0 <= k < refs.len() && refs[k] == r;
        assert(f(k, refs[k]).len() == 0);
    } else {
        let k = choose|k: int| 0 <= k < sources.len() && sources[k] == r;
        assert(h(k, sources[k]).len() == 0);
    }
    assert(id_target(nodes, r.0) is Some);
    lemma_first_index(nodes, r.0);
    lemma_named(nodes, r.0, super::semantics::ids::first_index(nodes, r.0));
}

/// The `target` of an entry of the routing list of node `i` names a node, when it is a usable
/// identifier and no reference is missing.
proof fn lemma_entry_target_links(nodes: Seq<JsonData>, i: int, list: Seq<char>, k: int, t: Seq<char>)
    requires
        reference_issues(nodes).len() == 0,
        0 <= i < nodes.len(),
        routing_list(node_text(nodes[i], "type"@)) == Some(list),
        list_of(nodes[i], list) is Some,
        0 <= k < list_of(nodes[i], list)->0.len(),
        node_text(list_of(nodes[i], list)->0[k], "target"@) == Some(t),
        usable_id(t),
    ensures
        link(nodes, list_of(nodes[i], list)->0[k], "target"@) is Some,
{
    let entries = list_of(nodes[i], list)->0;
    let f = target_ref(i, list);
    let r = (t, indexed(node_path(i) + "/"@ + list, k) + "/target"@);
    assert(f(k, entries[k]) == seq![r]);
    lemma_flat_contains(entries, f, k, 0);
    assert(list_refs(i, nodes[i], list) == flat_indexed(entries, f));
    let next_part = match node_text(nodes[i], "next"@) {
        Some(n) => seq![(n, node_path(i) + "/next"@)],
        None => Seq::<Reference>::empty(),
    };
    let refs = node_refs(i, nodes[i]);
    assert(refs == next_part + list_refs(i, nodes[i], list));
    let m = choose|m: int| 0 <= m < flat_indexed(entries, f).len() && flat_indexed(entries, f)[m] == r;
    assert(refs[next_part.len() + m] == r);
    lemma_reference_links(nodes, i, r);
}

/// A mapping in which structural validation finds nothing compiles.
proof fn lemma_mapping_compiles(m: JsonData, path: Seq<char>)
    requires
        mapping_issues(m, path).len() == 0,
    ensures
        mapping_compiles(m),
{
    let mm = m->Object_0;
    let required = seq!["target"@, "type"@];
    lemma_nothing_found(required, required_fn(mm, path));
    assert(required_fn(mm, path)(0, required[0]).len() == 0);
    assert(required_fn(mm, path)(1, required[1]).len() == 0);
    let target = field(mm, "target"@)->0->Text_0;
    lemma_pointer_syntax_parses(target);
    match field(mm, "path-to-source"@) {
        Some(JsonData::Text(p)) => {
            if p.len() > 0 {
                lemma_pointer_syntax_parses(p);
            } else {
                assert(pointer_keys(p) is Some);
            }
        },
        _ => {},
    }
}

/// The members a case requires are present when structural validation finds nothing.
proof fn lemma_case_members(cm: Seq<(Seq<char>, JsonData)>, path: Seq<char>, op: Seq<char>)
    requires
        case_properties(op) is Some,
        concat_indexed(case_properties(op)->0, required_fn(cm, path)).len() == 0,
    ensures
        forall|j: int| 0 <= j < case_properties(op)->0.len() ==> member(cm, #[trigger] case_properties(op)->0[j]) is Some,
{
    let props = case_properties(op)->0;
    lemma_nothing_found(props, required_fn(cm, path));
    assert forall|j: int| 0 <= j < props.len() implies member(cm, #[trigger] props[j]) is Some by {
        assert(required_fn(cm, path)(j, props[j]).len() == 0);
    }
}

/// A case of deterministic gate `i` in which structural validation finds nothing compiles,
/// when no reference is missing.
proof fn lemma_case_compiles(nodes: Seq<JsonData>, i: int, k: int, path: Seq<char>)
    requires
        reference_issues(nodes).len() == 0,
        0 <= i < nodes.len(),
        node_text(nodes[i], "type"@) == Some("deterministic-gate"@),
        list_of(nodes[i], "cases"@) is Some,
        0 <= k < list_of(nodes[i], "cases"@)->0.len(),
        case_issues(list_of(nodes[i], "cases"@)->0[k], path).len() == 0,
    ensures
        case_compiles(nodes, list_of(nodes[i], "cases"@)->0[k]),
{
    let c = list_of(nodes[i], "cases"@)->0[k];
    let cm = c->Object_0;
    let op = field(cm, "operator"@)->0->Text_0;
    let props = case_properties(op)->0;
    lemma_case_members(cm, path, op);
    let last = props.len() - 1;
    if op == "eq"@ || op == "lt"@ || op == "le"@ || op == "ge"@ || op == "gt"@ {
        assert(props[2] == "target"@ && props[1] == "value"@);
        assert(member(cm, props[1]) is Some);
        assert(member(cm, props[2]) is Some);
    } else if op == "in_range"@ {
        assert(props[3] == "target"@ && props[1] == "lower"@ && props[2] == "upper"@);
        assert(member(cm, props[1]) is Some);
        assert(member(cm, props[2]) is Some);
        assert(member(cm, props[3]) is Some);
    } else if op == "in_set"@ {
        assert(props[2] == "target"@ && props[1] == "values"@);
        assert(member(cm, props[1]) is Some);
        assert(member(cm, props[2]) is Some);
    } else {
        assert(props[1] == "target"@);
        assert(member(cm, props[1]) is Some);
    }
    let t = field(cm, "target"@)->0->Text_0;
    assert(usable_id(t));
    assert(routing_list(node_text(nodes[i], "type"@)) == Some("cases"@));
    lemma_entry_target_links(nodes, i, "cases"@, k, t);
}

/// A route of randomised gate `i` in which structural validation finds nothing compiles, when
/// no reference is missing.
proof fn lemma_route_compiles(nodes: Seq<JsonData>, i: int, k: int, path: Seq<char>, earlier: Seq<JsonData>)
    requires
        reference_issues(nodes).len() == 0,
        0 <= i < nodes.len(),
        routing_list(node_text(nodes[i], "type"@)) == Some("routes"@),
        list_of(nodes[i], "routes"@) is Some,
        0 <= k < list_of(nodes[i], "routes"@)->0.len(),
        route_issues(list_of(nodes[i], "routes"@)->0[k], path, earlier).len() == 0,
    ensures
        route_compiles(nodes, list_of(nodes[i], "routes"@)->0[k]),
{
    let r = list_of(nodes[i], "routes"@)->0[k];
    let rm = r->Object_0;
    let required = seq!["weight"@, "target"@];
    lemma_nothing_found(required, required_fn(rm, path));
    assert(required_fn(rm, path)(0, required[0]).len() == 0);
    assert(required_fn(rm, path)(1, required[1]).len() == 0);
    let t = field(rm, "target"@)->0->Text_0;
    assert(usable_id(t));
    lemma_entry_target_links(nodes, i, "routes"@, k, t);
}

/// A branch of fan-out `i` in which structural validation finds nothing compiles, when no
/// reference is missing.
proof fn lemma_branch_compiles(nodes: Seq<JsonData>, i: int, k: int, path: Seq<char>)
    requires
        reference_issues(nodes).len() == 0,
        0 <= i < nodes.len(),
        routing_list(node_text(nodes[i], "type"@)) == Some("branches"@),
        list_of(nodes[i], "branches"@) is Some,
        0 <= k < list_of(nodes[i], "branches"@)->0.len(),
        branch_issues(list_of(nodes[i], "branches"@)->0[k], path).len() == 0,
    ensures
        branch_compiles(nodes, list_of(nodes[i], "branches"@)->0[k]),
{
    let b = list_of(nodes[i], "branches"@)->0[k];
    let bm = b->Object_0;
    let required = seq!["id"@, "target"@];
    lemma_nothing_found(required, required_fn(bm, path));
    assert(required_fn(bm, path)(0, required[0]).len() == 0);
    assert(required_fn(bm, path)(1, required[1]).len() == 0);
    let t = field(bm, "target"@)->0->Text_0;
    assert(usable_id(t));
    lemma_entry_target_links(nodes, i, "branches"@, k, t);
}

/// An input of convergence node `i` in which structural validation finds nothing compiles,
/// when no reference is missing.
proof fn lemma_input_compiles(nodes: Seq<JsonData>, i: int, inputs: Seq<(Seq<char>, JsonData)>, k: int)
    requires
        reference_issues(nodes).len() == 0,
        0 <= i < nodes.len(),
        node_text(nodes[i], "type"@) == Some("converge"@),
        node_field(nodes[i], "inputs"@) == Some(JsonData::Object(inputs)),
        0 <= k < inputs.len(),
        input_issues(inputs[k], node_path(i)).len() == 0,
    ensures
        input_compiles(nodes, inputs[k]),
{
    let source = inputs[k].1->Text_0;
    assert(usable_id(source));
    let f = input_ref(i);
    assert(f(k, inputs[k]) == seq![(source, joined(node_path(i) + "/inputs"@, inputs[k].0))]);
    lemma_flat_contains(inputs, f, k, 0);
    assert(convergence_refs(i, nodes[i]) == flat_indexed(inputs, f));
    lemma_reference_links(nodes, i, (source, joined(node_path(i) + "/inputs"@, inputs[k].0)));
}

/// A map-schema node whose own issues are none: every mapping compiles.
proof fn lemma_map_node(nodes: Seq<JsonData>, i: int)
    requires
        0 <= i < nodes.len(),
        nodes[i] is Object,
        map_issues(nodes[i]->Object_0, node_path(i)).len() == 0,
    ensures
        list_of(nodes[i], "mappings"@) is Some && forall|k: int| 0 <= k < list_of(nodes[i], "mappings"@)->0.len()
            ==> mapping_compiles(#[trigger] list_of(nodes[i], "mappings"@)->0[k]),
{
    let n = nodes[i]->Object_0;
    let path = node_path(i);
    let required = seq!["id"@, "type"@, "mappings"@];
    lemma_nothing_found(required, required_fn(n, path));
    assert(required_fn(n, path)(2, required[2]).len() == 0);
    let items = field(n, "mappings"@)->0->Array_0;
    lemma_nothing_found(items, mapping_fn(path));
    assert forall|k: int| 0 <= k < items.len() implies mapping_compiles(#[trigger] items[k]) by {
        assert(mapping_fn(path)(k, items[k]).len() == 0);
        lemma_mapping_compiles(items[k], indexed(path + "/mappings"@, k));
    }
}

/// A deterministic gate whose own issues are none: its selector parses and every case
/// compiles, when no reference is missing.
proof fn lemma_deterministic_node(nodes: Seq<JsonData>, i: int)
    requires
        reference_issues(nodes).len() == 0,
        0 <= i < nodes.len(),
        nodes[i] is Object,
        node_text(nodes[i], "type"@) == Some("deterministic-gate"@),
        deterministic_issues(nodes[i]->Object_0, node_path(i)).len() == 0,
    ensures
        parses(node_text(nodes[i], "select"@)),
        list_of(nodes[i], "cases"@) is Some && forall|k: int| 0 <= k < list_of(nodes[i], "cases"@)->0.len()
            ==> case_compiles(nodes, #[trigger] list_of(nodes[i], "cases"@)->0[k]),
{
    let n = nodes[i]->Object_0;
    let path = node_path(i);
    let required = seq!["id"@, "type"@, "select"@, "cases"@];
    lemma_nothing_found(required, required_fn(n, path));
    assert(required_fn(n, path)(2, required[2]).len() == 0);
    assert(required_fn(n, path)(3, required[3]).len() == 0);
    let select = field(n, "select"@)->0->Text_0;
    if select.len() > 0 {
        lemma_pointer_syntax_parses(select);
    }
    let items = field(n, "cases"@)->0->Array_0;
    lemma_nothing_found(items, case_fn(path));
    assert forall|k: int| 0 <= k < items.len() implies case_compiles(nodes, #[trigger] items[k]) by {
        assert(case_fn(path)(k, items[k]).len() == 0);
        lemma_case_compiles(nodes, i, k, indexed(path + "/cases"@, k));
    }
}

/// A randomised gate whose own issues are none: every route compiles, when no reference is
/// missing.
#[verifier::rlimit(60)]
#[verifier::spinoff_prover]
proof fn lemma_randomised_node(nodes: Seq<JsonData>, i: int)
    requires
        reference_issues(nodes).len() == 0,
        0 <= i < nodes.len(),
        nodes[i] is Object,
        routing_list(node_text(nodes[i], "type"@)) == Some("routes"@),
        randomised_issues(nodes[i]->Object_0, node_path(i)).len() == 0,
    ensures
        list_of(nodes[i], "routes"@) is Some && forall|k: int| 0 <= k < list_of(nodes[i], "routes"@)->0.len()
            ==> route_compiles(nodes, #[trigger] list_of(nodes[i], "routes"@)->0[k]),
{
    let n = nodes[i]->Object_0;
    let path = node_path(i);
    let required = seq!["id"@, "type"@, "routes"@];
    lemma_nothing_found(required, required_fn(n, path));
    assert(required_fn(n, path)(2, required[2]).len() == 0);
    let items = field(n, "routes"@)->0->Array_0;
    let f = route_fn(path, items);
    assert(concat_indexed(items, f).len() == 0);
    lemma_nothing_found(items, f);
    assert(list_of(nodes[i], "routes"@) == Some(items));
    assert forall|k: int| 0 <= k < items.len() implies route_compiles(nodes, #[trigger] items[k]) by {
        assert(f(k, items[k]).len() == 0);
        lemma_route_entry(nodes, i, items, k);
    }
}

/// One route of randomised gate `i` whose own issues are none compiles.
proof fn lemma_route_entry(nodes: Seq<JsonData>, i: int, items: Seq<JsonData>, k: int)
    requires
        reference_issues(nodes).len() == 0,
        0 <= i < nodes.len(),
        routing_list(node_text(nodes[i], "type"@)) == Some("routes"@),
        list_of(nodes[i], "routes"@) == Some(items),
        0 <= k < items.len(),
        route_fn(node_path(i), items)(k, items[k]).len() == 0,
    ensures
        route_compiles(nodes, items[k]),
{
    let path = node_path(i);
    assert(route_fn(path, items)(k, items[k]) == route_issues(items[k], indexed(path + "/routes"@, k), items.take(k)));
    lemma_route_compiles(nodes, i, k, indexed(path + "/routes"@, k), items.take(k));
}

/// A fan-out whose own issues are none: every branch compiles, when no reference is missing.
proof fn lemma_fan_out_node(nodes: Seq<JsonData>, i: int)
    requires
        reference_issues(nodes).len() == 0,
        0 <= i < nodes.len(),
        nodes[i] is Object,
        routing_list(node_text(nodes[i], "type"@)) == Some("branches"@),
        fan_out_issues(nodes[i]->Object_0, node_path(i)).len() == 0,
    ensures
        list_of(nodes[i], "branches"@) is Some && forall|k: int| 0 <= k < list_of(nodes[i], "branches"@)->0.len()
            ==> branch_compiles(nodes, #[trigger] list_of(nodes[i], "branches"@)->0[k]),
{
    let n = nodes[i]->Object_0;
    let path = node_path(i);
    let required = seq!["id"@, "type"@, "branches"@];
    lemma_nothing_found(required, required_fn(n, path));
    assert(required_fn(n, path)(2, required[2]).len() == 0);
    let items = field(n, "branches"@)->0->Array_0;
    lemma_nothing_found(items, branch_fn(path));
    assert forall|k: int| 0 <= k < items.len() implies branch_compiles(nodes, #[trigger] items[k]) by {
        assert(branch_fn(path)(k, items[k]).len() == 0);
        lemma_branch_compiles(nodes, i, k, indexed(path + "/branches"@, k));
    }
}

/// A convergence node whose own issues are none: every input compiles, when no reference is
/// missing.
proof fn lemma_converge_node(nodes: Seq<JsonData>, i: int)
    requires
        reference_issues(nodes).len() == 0,
        0 <= i < nodes.len(),
        nodes[i] is Object,
        node_text(nodes[i], "type"@) == Some("converge"@),
        converge_issues(nodes[i]->Object_0, node_path(i)).len() == 0,
    ensures
        match node_field(nodes[i], "inputs"@) {
            Some(JsonData::Object(inputs)) => forall|k: int| 0 <= k < inputs.len() ==> input_compiles(nodes, #[trigger] inputs[k]),
            _ => false,
        },
{
    let n = nodes[i]->Object_0;
    let path = node_path(i);
    let required = seq!["id"@, "type"@, "inputs"@];
    lemma_nothing_found(required, required_fn(n, path));
    assert(required_fn(n, path)(2, required[2]).len() == 0);
    let items = field(n, "inputs"@)->0->Object_0;
    lemma_nothing_found(items, input_fn(path));
    assert forall|k: int| 0 <= k < items.len() implies input_compiles(nodes, #[trigger] items[k]) by {
        assert(input_fn(path)(k, items[k]).len() == 0);
        lemma_input_compiles(nodes, i, items, k);
    }
}

/// A node in which structural validation finds nothing compiles, when no reference is missing.
#[verifier::rlimit(60)]
#[verifier::spinoff_prover]
proof fn lemma_node_compiles(nodes: Seq<JsonData>, i: int)
    requires
        reference_issues(nodes).len() == 0,
        0 <= i < nodes.len(),
        node_issues(nodes[i], i).len() == 0,
    ensures
        node_compiles(nodes, nodes[i]),
{
    let raw = nodes[i];
    let n = raw->Object_0;
    let path = node_path(i);
    let base = seq!["id"@, "type"@];
    lemma_nothing_found(base, required_fn(n, path));
    assert(required_fn(n, path)(0, base[0]).len() == 0);
    assert(required_fn(n, path)(1, base[1]).len() == 0);
    let kind = field(n, "type"@)->0->Text_0;
    let own = kind_issues(n, path, kind);
    assert(own.len() == 0);
    if kind == "task"@ {
        let required = seq!["id"@, "type"@, "task"@];
        assert(task_issues(n, path).len() == 0);
        lemma_nothing_found(required, required_fn(n, path));
        assert(required_fn(n, path)(2, required[2]).len() == 0);
    } else if kind == "map-schema"@ {
        assert(own == map_issues(n, path));
        lemma_map_node(nodes, i);
    } else if kind == "deterministic-gate"@ {
        assert(own == deterministic_issues(n, path));
        lemma_deterministic_node(nodes, i);
    } else if kind == "randomised-gate"@ {
        assert(own == randomised_issues(n, path));
        lemma_randomised_node(nodes, i);
    } else if kind == "fan-out"@ {
        assert(own == fan_out_issues(n, path));
        lemma_fan_out_node(nodes, i);
    } else if kind == "converge"@ {
        assert(own == converge_issues(n, path));
        lemma_converge_node(nodes, i);
    } else if kind == "raise-error"@ {
        let required = seq!["id"@, "type"@, "message"@];
        assert(own == raise_issues(n, path));
        lemma_nothing_found(required, required_fn(n, path));
        assert(required_fn(n, path)(2, required[2]).len() == 0);
    } else {
        assert(own.len() == 1);
    }
}

/// The node an identifier names exactly once is the last node with that `id`, so it exists.
proof fn lemma_unique_links(nodes: Seq<JsonData>, t: Seq<char>)
    requires
        id_target(nodes, t) is Some,
    ensures
        last_named(nodes, t) is Some,
{
    lemma_first_index(nodes, t);
    lemma_named(nodes, t, super::semantics::ids::first_index(nodes, t));
}

/// A specification in which assessment finds no issue at all compiles: every node is an object
/// with a string `id`, a supported `type` and members of that type that name nodes, and the
/// entry and output name nodes.
pub proof fn lemma_clean_assessment_compiles(value: JsonData, found: Seq<IssueView>)
    requires
        assessment_fits(value, found),
        found.len() == 0,
    ensures
        graph_compiles(value),
{
    assert(structure_issues(value).len() == 0);
    let root = value->Object_0;
    let props = root_properties();
    assert(property_issues(root, ""@, props, props).len() == 0);
    lemma_nothing_found(props, required_fn(root, ""@));
    assert(required_fn(root, ""@)(0, props[0]).len() == 0);
    assert(required_fn(root, ""@)(1, props[1]).len() == 0);
    assert(required_fn(root, ""@)(2, props[2]).len() == 0);
    let nodes = member(root, "nodes"@)->0->Array_0;
    assert(concat_indexed(nodes, node_fn()).len() == 0);
    lemma_nothing_found(nodes, node_fn());
    assert(found.skip(0) =~= found);
    assert(semantic_issues_fit(value, found));
    let local = local_issues(root, nodes);
    assert(local.len() == 0);
    assert(reference_issues(nodes).len() == 0);
    assert(role_issues(root, nodes).len() == 0);
    assert forall|i: int| 0 <= i < nodes.len() implies node_compiles(nodes, #[trigger] nodes[i]) by {
        assert(node_fn()(i, nodes[i]).len() == 0);
        lemma_node_compiles(nodes, i);
    }
    let entry = member(root, "entry"@)->0->Text_0;
    let output = member(root, "output"@)->0->Text_0;
    assert(role_index(root, nodes, "entry"@) is Some);
    assert(role_index(root, nodes, "output"@) is Some);
    lemma_unique_links(nodes, entry);
    lemma_unique_links(nodes, output);
}

} // verus!
