//! Node references: the edges they make and the references that name no single node.
use vstd::prelude::*;

use super::{flat_indexed, lemma_flat_indexed_all, lemma_flat_indexed_step};
use super::ids::{field_of, id_target, is_usable_id, node_field, node_text, text_of, usable_id, IdIndex};
use crate::diagnostics::{concat_indexed, issue_views, lemma_concat_indexed_all, lemma_concat_indexed_step,
    push_issue_owned, IssueData, IssueView};
use crate::graph::algorithms::adjacency;
use crate::graph::structure::node::{indexed, indexed_string};
use crate::json_pointer::{join_pointer, joined};
use crate::json_value::{array_data, object_data, JsonData, JsonValue};
use crate::text::{concat, debug_quoted, debug_text, node_path, node_path_string, owned, text_eq};

verus! {

/// A reference: the identifier named and the path that names it.
pub type Reference = (Seq<char>, Seq<char>);

/// The reference an entry of the list `list` of node `i` makes through its `target`.
pub open spec fn target_ref(i: int, list: Seq<char>) -> spec_fn(int, JsonData) -> Seq<Reference> {
    |k: int, entry: JsonData| match node_text(entry, "target"@) {
        Some(t) => seq![(t, indexed(node_path(i) + "/"@ + list, k) + "/target"@)],
        None => Seq::empty(),
    }
}

/// The references the entries of the list `list` make.
pub open spec fn list_refs(i: int, node: JsonData, list: Seq<char>) -> Seq<Reference> {
    match node_field(node, list) {
        Some(JsonData::Array(entries)) => flat_indexed(entries, target_ref(i, list)),
        _ => Seq::empty(),
    }
}

/// The list whose entries route a node of the given type onwards.
pub open spec fn routing_list(kind: Option<Seq<char>>) -> Option<Seq<char>> {
    if kind == Some("deterministic-gate"@) {
        Some("cases"@)
    } else if kind == Some("randomised-gate"@) {
        Some("routes"@)
    } else if kind == Some("fan-out"@) {
        Some("branches"@)
    } else {
        None
    }
}

/// The outgoing references of node `i`: its `next`, then the targets of its cases, routes or
/// branches, in order.
pub open spec fn node_refs(i: int, node: JsonData) -> Seq<Reference> {
    (match node_text(node, "next"@) {
        Some(t) => seq![(t, node_path(i) + "/next"@)],
        None => Seq::empty(),
    }) + match routing_list(node_text(node, "type"@)) {
        Some(list) => list_refs(i, node, list),
        None => Seq::empty(),
    }
}

/// The source a convergence input names.
pub open spec fn input_ref(i: int) -> spec_fn(int, (Seq<char>, JsonData)) -> Seq<Reference> {
    |k: int, input: (Seq<char>, JsonData)| match input.1 {
        JsonData::Text(source) => seq![(source, joined(node_path(i) + "/inputs"@, input.0))],
        _ => Seq::empty(),
    }
}

/// The sources a convergence node names, in input order.
pub open spec fn convergence_refs(i: int, node: JsonData) -> Seq<Reference> {
    if node_text(node, "type"@) == Some("converge"@) {
        match node_field(node, "inputs"@) {
            Some(JsonData::Object(inputs)) => flat_indexed(inputs, input_ref(i)),
            _ => Seq::empty(),
        }
    } else {
        Seq::empty()
    }
}

/// The node an outgoing reference leads to, when it names exactly one node.
pub open spec fn edge_fn(nodes: Seq<JsonData>) -> spec_fn(int, Reference) -> Seq<usize> {
    |k: int, r: Reference| match id_target(nodes, r.0) {
        Some(t) => seq![t as usize],
        None => Seq::empty(),
    }
}

/// The edges out of node `i`, in reference order.
pub open spec fn node_edges(nodes: Seq<JsonData>, i: int) -> Seq<usize> {
    flat_indexed(node_refs(i, nodes[i]), edge_fn(nodes))
}

/// The edges out of a node lead to nodes.
pub proof fn lemma_edges_bounded(nodes: Seq<JsonData>, refs: Seq<Reference>)
    requires
        nodes.len() <= usize::MAX,
    ensures
        forall|k: int| 0 <= k < flat_indexed(refs, edge_fn(nodes)).len() ==> #[trigger] flat_indexed(refs, edge_fn(nodes))[k] < nodes.len(),
    decreases refs.len(),
{
    if refs.len() > 0 {
        lemma_edges_bounded(nodes, refs.drop_last());
        let left = flat_indexed(refs.drop_last(), edge_fn(nodes));
        let right = edge_fn(nodes)(refs.len() - 1, refs.last());
        if id_target(nodes, refs.last().0) is Some {
            super::ids::lemma_first_index(nodes, refs.last().0);
        }
        assert forall|k: int| 0 <= k < (left + right).len() implies #[trigger] (left + right)[k] < nodes.len() by {
            if k < left.len() {
                assert((left + right)[k] == left[k]);
            } else {
                assert((left + right)[k] == right[k - left.len()]);
            }
        }
    }
}

/// A missing reference: a usable identifier that names no single node.
pub open spec fn missing_fn(nodes: Seq<JsonData>, what: Seq<char>) -> spec_fn(int, Reference) -> Seq<IssueView> {
    |k: int, r: Reference| if id_target(nodes, r.0) is None && usable_id(r.0) {
        seq![(r.1, "REFERENCE_MISSING"@, what + " "@ + debug_text(r.0) + " is missing or ambiguous"@)]
    } else {
        Seq::empty()
    }
}

/// The missing references of node `i`: outgoing ones, then convergence sources.
pub open spec fn node_missing(nodes: Seq<JsonData>, i: int, node: JsonData) -> Seq<IssueView> {
    concat_indexed(node_refs(i, node), missing_fn(nodes, "node reference"@))
        + concat_indexed(convergence_refs(i, node), missing_fn(nodes, "convergence source"@))
}

pub open spec fn node_missing_fn(nodes: Seq<JsonData>) -> spec_fn(int, JsonData) -> Seq<IssueView> {
    |i: int, node: JsonData| node_missing(nodes, i, node)
}

/// Every missing reference, in node order.
pub open spec fn reference_issues(nodes: Seq<JsonData>) -> Seq<IssueView> {
    concat_indexed(nodes, node_missing_fn(nodes))
}

/// References as data.
pub open spec fn refs_view(refs: Seq<(String, String)>) -> Seq<Reference> {
    refs.map_values(|r: (String, String)| (r.0@, r.1@))
}

fn push_ref(refs: &mut Vec<(String, String)>, target: &str, path: String)
    ensures
        refs_view(final(refs)@) == refs_view(old(refs)@).push((target@, path@)),
{
    refs.push((owned(target), path));
    assert(refs_view(refs@) =~= refs_view(old(refs)@).push((target@, path@)));
}

/// Appends the references the entries of one list make.
fn push_list_refs(node: &JsonValue, index: usize, list: &str, refs: &mut Vec<(String, String)>)
    ensures
        refs_view(final(refs)@) == refs_view(old(refs)@) + list_refs(index as int, node@, list@),
{
    let ghost start = refs_view(refs@);
    let entries = match field_of(node, list) {
        Some(v) => match v.array() {
            Some(items) => items,
            None => {
                assert(refs_view(refs@) =~= start + list_refs(index as int, node@, list@));
                return;
            },
        },
        None => {
            assert(refs_view(refs@) =~= start + list_refs(index as int, node@, list@));
            return;
        },
    };
    let ghost ed = array_data(*entries);
    let base = concat(concat(node_path_string(index).as_str(), "/").as_str(), list);
    let mut k: usize = 0;
    while k < entries.len()
        invariant
            k <= entries.len(),
            ed == array_data(*entries),
            ed.len() == entries.len(),
            base@ == node_path(index as int) + "/"@ + list@,
            refs_view(refs@) == start + flat_indexed(ed.take(k as int), target_ref(index as int, list@)),
        decreases entries.len() - k,
    {
        proof {
            lemma_flat_indexed_step(ed, k as int, target_ref(index as int, list@));
        }
        assert(ed[k as int] == entries[k as int]@);
        match text_of(&entries[k], "target") {
            Some(t) => {
                let path = concat(indexed_string(base.as_str(), k).as_str(), "/target");
                push_ref(refs, t, path);
            },
            None => {},
        }
        assert(refs_view(refs@) =~= start + flat_indexed(ed.take(k + 1), target_ref(index as int, list@)));
        k = k + 1;
    }
    proof {
        lemma_flat_indexed_all(ed, target_ref(index as int, list@));
    }
}

/// The outgoing references of a node, as `(identifier, path)` pairs.
pub fn outgoing_references(node: &JsonValue, index: usize) -> (result: Vec<(String, String)>)
    ensures
        refs_view(result@) == node_refs(index as int, node@),
{
    let mut refs: Vec<(String, String)> = Vec::new();
    match text_of(node, "next") {
        Some(next) => {
            push_ref(&mut refs, next, concat(node_path_string(index).as_str(), "/next"));
        },
        None => {},
    }
    let ghost mid = refs_view(refs@);
    assert(mid =~= match node_text(node@, "next"@) {
        Some(t) => seq![(t, node_path(index as int) + "/next"@)],
        None => Seq::<Reference>::empty(),
    });
    let kind = text_of(node, "type");
    let list: Option<&str> = match kind {
        Some(k) => if text_eq(k, "deterministic-gate") {
            Some("cases")
        } else if text_eq(k, "randomised-gate") {
            Some("routes")
        } else if text_eq(k, "fan-out") {
            Some("branches")
        } else {
            None
        },
        None => None,
    };
    proof {
        reveal_strlit("cases");
        reveal_strlit("routes");
        reveal_strlit("branches");
    }
    match list {
        Some(l) => {
            assert(routing_list(node_text(node@, "type"@)) == Some(l@));
            push_list_refs(node, index, l, &mut refs);
        },
        None => {
            assert(routing_list(node_text(node@, "type"@)) is None);
        },
    }
    assert(refs_view(refs@) =~= node_refs(index as int, node@));
    refs
}

/// The convergence sources of a node, as `(identifier, path)` pairs.
pub fn convergence_sources(node: &JsonValue, index: usize) -> (result: Vec<(String, String)>)
    ensures
        refs_view(result@) == convergence_refs(index as int, node@),
{
    let mut refs: Vec<(String, String)> = Vec::new();
    let is_converge = match text_of(node, "type") {
        Some(t) => text_eq(t, "converge"),
        None => false,
    };
    if !is_converge {
        assert(refs_view(refs@) =~= convergence_refs(index as int, node@));
        return refs;
    }
    let inputs = match field_of(node, "inputs") {
        Some(v) => match v.object() {
            Some(m) => m,
            None => {
                assert(refs_view(refs@) =~= convergence_refs(index as int, node@));
                return refs;
            },
        },
        None => {
            assert(refs_view(refs@) =~= convergence_refs(index as int, node@));
            return refs;
        },
    };
    let ghost md = object_data(*inputs);
    let base = concat(node_path_string(index).as_str(), "/inputs");
    let mut k: usize = 0;
    while k < inputs.len()
        invariant
            k <= inputs.len(),
            md == object_data(*inputs),
            md.len() == inputs.len(),
            base@ == node_path(index as int) + "/inputs"@,
            refs_view(refs@) == flat_indexed(md.take(k as int), input_ref(index as int)),
        decreases inputs.len() - k,
    {
        proof {
            lemma_flat_indexed_step(md, k as int, input_ref(index as int));
        }
        assert(md[k as int] == (inputs[k as int].0@, inputs[k as int].1@));
        match inputs[k].1.string() {
            Some(source) => {
                let path = join_pointer(base.as_str(), inputs[k].0.as_str());
                push_ref(&mut refs, source, path);
            },
            None => {},
        }
        assert(refs_view(refs@) =~= flat_indexed(md.take(k + 1), input_ref(index as int)));
        k = k + 1;
    }
    proof {
        lemma_flat_indexed_all(md, input_ref(index as int));
    }
    refs
}

fn missing_message(what: &str, target: &str) -> (result: String)
    ensures
        result@ == what@ + " "@ + debug_text(target@) + " is missing or ambiguous"@,
{
    let mut out = concat(what, " ");
    out = concat(out.as_str(), debug_quoted(target).as_str());
    concat(out.as_str(), " is missing or ambiguous")
}

/// Reports the references among `refs` that name no single node.
fn report_missing(
    refs: &Vec<(String, String)>,
    ids: &IdIndex,
    nodes: Ghost<Seq<JsonData>>,
    what: &str,
    issues: &mut Vec<IssueData>,
)
    requires
        ids.describes(nodes@),
    ensures
        issue_views(final(issues)@) == issue_views(old(issues)@) + concat_indexed(refs_view(refs@), missing_fn(nodes@, what@)),
{
    let ghost rv = refs_view(refs@);
    let ghost start = issue_views(issues@);
    let mut k: usize = 0;
    while k < refs.len()
        invariant
            k <= refs.len(),
            rv == refs_view(refs@),
            rv.len() == refs.len(),
            ids.describes(nodes@),
            issue_views(issues@) == start + concat_indexed(rv.take(k as int), missing_fn(nodes@, what@)),
        decreases refs.len() - k,
    {
        proof {
            lemma_concat_indexed_step(rv, k as int, missing_fn(nodes@, what@));
        }
        let target = refs[k].0.as_str();
        assert(rv[k as int] == (refs[k as int].0@, refs[k as int].1@));
        if ids.target(target, nodes).is_none() && is_usable_id(target) {
            push_issue_owned(issues, "REFERENCE_MISSING", refs[k].1.clone(), missing_message(what, target));
        }
        assert(issue_views(issues@) =~= start + concat_indexed(rv.take(k + 1), missing_fn(nodes@, what@)));
        k = k + 1;
    }
    proof {
        lemma_concat_indexed_all(rv, missing_fn(nodes@, what@));
    }
}

/// The nodes the references lead to.
fn edges_of(refs: &Vec<(String, String)>, ids: &IdIndex, nodes: Ghost<Seq<JsonData>>) -> (result: Vec<usize>)
    requires
        ids.describes(nodes@),
    ensures
        result@ == flat_indexed(refs_view(refs@), edge_fn(nodes@)),
{
    let ghost rv = refs_view(refs@);
    let mut out: Vec<usize> = Vec::new();
    let mut k: usize = 0;
    while k < refs.len()
        invariant
            k <= refs.len(),
            rv == refs_view(refs@),
            rv.len() == refs.len(),
            ids.describes(nodes@),
            out@ == flat_indexed(rv.take(k as int), edge_fn(nodes@)),
        decreases refs.len() - k,
    {
        proof {
            lemma_flat_indexed_step(rv, k as int, edge_fn(nodes@));
        }
        assert(rv[k as int] == (refs[k as int].0@, refs[k as int].1@));
        match ids.target(refs[k].0.as_str(), nodes) {
            Some(t) => {
                out.push(t);
            },
            None => {},
        }
        assert(out@ =~= flat_indexed(rv.take(k + 1), edge_fn(nodes@)));
        k = k + 1;
    }
    proof {
        lemma_flat_indexed_all(rv, edge_fn(nodes@));
    }
    out
}

/// Builds the edges of the graph and reports missing references; returns the edges and whether
/// any reference was missing.
pub fn link_nodes(nodes: &Vec<JsonValue>, ids: &IdIndex, issues: &mut Vec<IssueData>) -> (result: (Vec<Vec<usize>>, bool))
    requires
        ids.describes(array_data(*nodes)),
    ensures
        result.0.len() == nodes.len(),
        forall|i: int| 0 <= i < nodes.len() ==> #[trigger] adjacency(result.0)[i] == node_edges(array_data(*nodes), i),
        crate::graph::algorithms::graph_wf(adjacency(result.0)),
        issue_views(final(issues)@) == issue_views(old(issues)@) + reference_issues(array_data(*nodes)),
        result.1 == (reference_issues(array_data(*nodes)).len() > 0),
{
    let ghost nd = array_data(*nodes);
    let ghost start = issue_views(issues@);
    let start_len = issues.len();
    assert(start.len() == start_len);
    let mut edges: Vec<Vec<usize>> = Vec::new();
    let mut i: usize = 0;
    while i < nodes.len()
        invariant
            i <= nodes.len(),
            nd == array_data(*nodes),
            nd.len() == nodes.len(),
            ids.describes(nd),
            edges.len() == i,
            forall|j: int| 0 <= j < i ==> #[trigger] adjacency(edges)[j] == node_edges(nd, j),
            issue_views(issues@) == start + concat_indexed(nd.take(i as int), node_missing_fn(nd)),
        decreases nodes.len() - i,
    {
        proof {
            lemma_concat_indexed_step(nd, i as int, node_missing_fn(nd));
        }
        assert(nd[i as int] == nodes[i as int]@);
        let refs = outgoing_references(&nodes[i], i);
        let targets = edges_of(&refs, ids, Ghost(nd));
        report_missing(&refs, ids, Ghost(nd), "node reference", issues);
        let sources = convergence_sources(&nodes[i], i);
        report_missing(&sources, ids, Ghost(nd), "convergence source", issues);
        let ghost before = edges@;
        let ghost before_adj = adjacency(edges);
        assert(targets@ == node_edges(nd, i as int));
        edges.push(targets);
        proof {
            assert forall|j: int| 0 <= j < i + 1 implies #[trigger] adjacency(edges)[j] == node_edges(nd, j) by {
                assert(adjacency(edges)[j] == edges@[j]@);
                if j < i {
                    assert(edges@[j] == before[j]);
                    assert(before_adj[j] == before[j]@);
                }
            }
        }
        assert(issue_views(issues@) =~= start + concat_indexed(nd.take(i + 1), node_missing_fn(nd)));
        i = i + 1;
    }
    proof {
        lemma_concat_indexed_all(nd, node_missing_fn(nd));
        let g = adjacency(edges);
        assert forall|a: int, k: int| 0 <= a < g.len() && 0 <= k < g[a].len() implies #[trigger] g[a][k] < g.len() by {
            lemma_edges_bounded(nd, node_refs(a, nd[a]));
        }
    }
    assert(issue_views(issues@).len() == issues.len());
    (edges, issues.len() > start_len)
}

} // verus!
