//! Semantic assessment: identifiers, references, reachability, cycles, flows and activity.
pub mod ids;
pub mod definitions;
pub mod references;
pub mod gate_validation;
pub mod mapping_validation;
pub mod flow;
pub mod activity;

use vstd::prelude::*;

verus! {

/// What `f` yields for each element, with its index, in order.
pub open spec fn flat_indexed<T, U>(s: Seq<T>, f: spec_fn(int, T) -> Seq<U>) -> Seq<U>
    decreases s.len(),
{
    if s.len() == 0 {
        Seq::empty()
    } else {
        flat_indexed(s.drop_last(), f) + f(s.len() - 1, s.last())
    }
}

/// One more element extends the result by what `f` yields for it.
pub proof fn lemma_flat_indexed_step<T, U>(s: Seq<T>, i: int, f: spec_fn(int, T) -> Seq<U>)
    requires
        0 <= i < s.len(),
    ensures
        flat_indexed(s.take(i + 1), f) == flat_indexed(s.take(i), f) + f(i, s[i]),
{
    assert(s.take(i + 1).drop_last() =~= s.take(i));
}

/// The whole sequence.
pub proof fn lemma_flat_indexed_all<T, U>(s: Seq<T>, f: spec_fn(int, T) -> Seq<U>)
    ensures
        flat_indexed(s.take(s.len() as int), f) == flat_indexed(s, f),
{
    assert(s.take(s.len() as int) =~= s);
}

} // verus!

use ids::{id_path, id_target, index_ids, node_field, node_text, text_of, IdIndex};
use definitions::{define_flows, flow_collision_issues};
use references::{link_nodes, reference_issues};
use gate_validation::{gate_overlap_issues, validate_gate_overlaps};
use mapping_validation::{mapping_target_issues, validate_mapping_targets};
use flow::{flow_issues, validate_flows};
use activity::{activity_issue, validate_activity};
use crate::diagnostics::{concat_indexed, issue_views, lemma_concat_indexed_all, lemma_concat_indexed_step, push_issue,
    IssueData, IssueView};
use crate::graph::algorithms::{adjacency, component_lists, covered, in_component, same_scc, cyclic_component, has_cycle, on_cycle, has_edge, lemma_cycle_shows_in_component, can_reach_terminal, graph_wf, reachable_from, reaches, reaches_terminal,
    strongly_connected};
use crate::json_value::{array_data, data_wf, member, member_contains, member_get, object_data, JsonData, JsonValue};
use crate::text::{concat, lemma_text_lt_irreflexive, lemma_text_lt_transitive, node_path, node_path_string, owned, text_eq, text_less, text_lt};

verus! {

/// What a node type may be: the entry, the output, and whether it needs an ordinary `next`.
#[derive(Clone, Copy)]
pub struct Capabilities {
    pub entry: bool,
    pub output: bool,
    pub ordinary_next: bool,
}

/// The capabilities of each node type.
pub open spec fn capabilities_of(kind: Seq<char>) -> Option<Capabilities> {
    if kind == "task"@ || kind == "map-schema"@ {
        Some(Capabilities { entry: true, output: true, ordinary_next: true })
    } else if kind == "converge"@ {
        Some(Capabilities { entry: false, output: true, ordinary_next: true })
    } else if kind == "deterministic-gate"@ || kind == "randomised-gate"@ || kind == "fan-out"@ {
        Some(Capabilities { entry: true, output: false, ordinary_next: false })
    } else if kind == "raise-error"@ {
        Some(Capabilities { entry: false, output: false, ordinary_next: false })
    } else {
        None
    }
}

/// The capabilities of a node type.
pub fn capabilities_name(kind: &str) -> (result: Option<Capabilities>)
    ensures
        result == capabilities_of(kind@),
{
    if text_eq(kind, "task") || text_eq(kind, "map-schema") {
        Some(Capabilities { entry: true, output: true, ordinary_next: true })
    } else if text_eq(kind, "converge") {
        Some(Capabilities { entry: false, output: true, ordinary_next: true })
    } else if text_eq(kind, "deterministic-gate") || text_eq(kind, "randomised-gate") || text_eq(kind, "fan-out") {
        Some(Capabilities { entry: true, output: false, ordinary_next: false })
    } else if text_eq(kind, "raise-error") {
        Some(Capabilities { entry: false, output: false, ordinary_next: false })
    } else {
        None
    }
}

/// The node type of a node may do what `able` asks of its capabilities.
pub open spec fn kind_allows(node: JsonData, able: spec_fn(Capabilities) -> bool) -> bool {
    match node_text(node, "type"@) {
        Some(kind) => match capabilities_of(kind) {
            Some(c) => able(c),
            None => false,
        },
        None => false,
    }
}

pub open spec fn can_enter() -> spec_fn(Capabilities) -> bool {
    |c: Capabilities| c.entry
}

pub open spec fn can_end() -> spec_fn(Capabilities) -> bool {
    |c: Capabilities| c.output
}

/// The node a root member (`entry` or `output`) names.
pub open spec fn role_index(root: Seq<(Seq<char>, JsonData)>, nodes: Seq<JsonData>, key: Seq<char>) -> Option<int> {
    match member(root, key) {
        Some(JsonData::Text(id)) => id_target(nodes, id),
        _ => None,
    }
}

/// The issues about the entry and the output.
pub open spec fn role_issues(root: Seq<(Seq<char>, JsonData)>, nodes: Seq<JsonData>) -> Seq<IssueView> {
    let entry = role_index(root, nodes, "entry"@);
    let output = role_index(root, nodes, "output"@);
    (if member(root, "entry"@) is Some && entry is None {
        seq![("/entry"@, "ENTRY_INVALID"@, "entry does not name exactly one node"@)]
    } else {
        Seq::empty()
    }) + (if member(root, "output"@) is Some && output is None {
        seq![("/output"@, "OUTPUT_INVALID"@, "output does not name exactly one node"@)]
    } else {
        Seq::empty()
    }) + match entry {
        Some(e) => if !kind_allows(nodes[e], can_enter()) {
            seq![("/entry"@, "ENTRY_INVALID"@, "node type is not eligible as entry"@)]
        } else {
            Seq::empty()
        },
        None => Seq::empty(),
    } + match output {
        Some(o) => (if !kind_allows(nodes[o], can_end()) {
            seq![("/output"@, "OUTPUT_INVALID"@, "node type is not eligible as output"@)]
        } else {
            Seq::empty()
        }) + (if node_field(nodes[o], "next"@) is Some {
            seq![(node_path(o) + "/next"@, "OUTPUT_INVALID"@, "output node must not have an outgoing edge"@)]
        } else {
            Seq::empty()
        }),
        None => Seq::empty(),
    }
}

/// A node other than the output whose type needs an ordinary `next` but has none.
pub open spec fn dead_end_fn(output: Option<int>) -> spec_fn(int, JsonData) -> Seq<IssueView> {
    |i: int, node: JsonData| match node_text(node, "type"@) {
        Some(kind) => if capabilities_of(kind) is Some && capabilities_of(kind)->0.ordinary_next && output != Some(i)
            && node_field(node, "next"@) is None {
            seq![(node_path(i), "GRAPH_DEAD_END"@, "non-output node requires next"@)]
        } else {
            Seq::empty()
        },
        None => Seq::empty(),
    }
}

/// The mapping-target and gate-overlap issues of a node.
pub open spec fn specific_fn() -> spec_fn(int, JsonData) -> Seq<IssueView> {
    |i: int, node: JsonData| mapping_target_issues(i, node) + gate_overlap_issues(i, node)
}

/// A node the entry does not reach.
pub open spec fn unreachable_fn(g: Seq<Seq<usize>>, entry: int) -> spec_fn(int, JsonData) -> Seq<IssueView> {
    |i: int, node: JsonData| if !reaches(g, entry, i) {
        seq![(id_path(i), "GRAPH_UNREACHABLE"@, "node is unreachable from entry"@)]
    } else {
        Seq::empty()
    }
}

/// A node the entry reaches that reaches neither the output nor a raise-error node.
pub open spec fn stranded_fn(g: Seq<Seq<usize>>, nodes: Seq<JsonData>, entry: int, output: int) -> spec_fn(int, JsonData) -> Seq<IssueView> {
    |i: int, node: JsonData| if reaches(g, entry, i) && !reaches_terminal(g, nodes, output, i) {
        seq![(id_path(i), "GRAPH_DEAD_END"@, "successful path cannot reach output"@)]
    } else {
        Seq::empty()
    }
}

/// The edges the references of the nodes make.
pub open spec fn graph_of(nodes: Seq<JsonData>) -> Seq<Seq<usize>> {
    Seq::new(nodes.len(), |i: int| references::node_edges(nodes, i))
}

/// The semantic issues found before the graph is walked.
pub open spec fn local_issues(root: Seq<(Seq<char>, JsonData)>, nodes: Seq<JsonData>) -> Seq<IssueView> {
    ids::id_collision_issues(nodes) + flow_collision_issues(nodes) + reference_issues(nodes) + role_issues(root, nodes)
        + concat_indexed(nodes, dead_end_fn(role_index(root, nodes, "output"@))) + concat_indexed(nodes, specific_fn())
        + if reference_issues(nodes).len() == 0 {
        flow_issues(nodes)
    } else {
        Seq::empty()
    }
}

/// The issues found by walking the graph from its entry: unreachable nodes, cycles, nodes that
/// cannot finish, and activity. Cycle issues each name a node that lies on a cycle, and there
/// is one exactly when the graph has a cycle; activity is analysed only when there is none.
pub open spec fn walk_issues_fit(
    nodes: Seq<JsonData>,
    entry: int,
    output: int,
    issues: Seq<IssueView>,
    cycles: Seq<IssueView>,
    activity: Seq<IssueView>,
) -> bool {
    let g = graph_of(nodes);
    &&& issues == concat_indexed(nodes, unreachable_fn(g, entry)) + cycles + concat_indexed(nodes, stranded_fn(g, nodes, entry, output))
        + activity
    &&& forall|k: int| 0 <= k < cycles.len() ==> cycle_issue(g, #[trigger] cycles[k])
    &&& forall|k: int| 0 <= k < activity.len() ==> activity_issue(nodes, #[trigger] activity[k])
    &&& cycles.len() == 0 ==> activity == activity::activity_run(activity::initial_sets(nodes.len() as int, entry), nodes,
        activity::topological_order(g), activity::branch_ids(nodes), activity::retirements(nodes, g)).1
    &&& cycles.len() > 0 ==> activity.len() == 0
    &&& has_cycle(g) <==> cycles.len() > 0
    &&& cycles_exact(nodes, g, cycles)
}

/// The cycle issues of the graph of resolving references: each names a node on a cycle, and
/// there is one exactly when the graph has a cycle.
pub open spec fn cycles_fit(nodes: Seq<JsonData>, g: Seq<Seq<usize>>, cycles: Seq<IssueView>) -> bool {
    &&& forall|k: int| 0 <= k < cycles.len() ==> cycle_issue(g, #[trigger] cycles[k])
    &&& has_cycle(g) <==> cycles.len() > 0
    &&& cycles_exact(nodes, g, cycles)
}

/// The semantic issues of a specification: the issues found before the graph is walked, then,
/// when every reference resolves and the entry and output each name one node, the issues of
/// the walk; otherwise only the cycles of the graph of the references that do resolve, which
/// no missing reference can cause.
pub open spec fn semantic_issues_fit(value: JsonData, issues: Seq<IssueView>) -> bool {
    match value {
        JsonData::Object(root) => match member(root, "nodes"@) {
            Some(JsonData::Array(nodes)) => {
                let entry = role_index(root, nodes, "entry"@);
                let output = role_index(root, nodes, "output"@);
                let local = local_issues(root, nodes);
                if reference_issues(nodes).len() == 0 && entry is Some && output is Some {
                    issues.len() >= local.len() && issues.take(local.len() as int) == local && exists|cycles: Seq<IssueView>, activity: Seq<IssueView>|
                        walk_issues_fit(nodes, entry->0, output->0, #[trigger] issues.skip(local.len() as int), cycles, activity)
                } else {
                    issues.len() >= local.len() && issues.take(local.len() as int) == local
                        && cycles_fit(nodes, graph_of(nodes), issues.skip(local.len() as int))
                }
            },
            _ => issues.len() == 0,
        },
        _ => issues.len() == 0,
    }
}

/// A position as an integer.
pub open spec fn as_index(o: Option<usize>) -> Option<int> {
    match o {
        Some(i) => Some(i as int),
        None => None,
    }
}

/// The node a root member names.
fn role_of(root: &Vec<(String, JsonValue)>, key: &str, ids: &IdIndex, nodes: Ghost<Seq<JsonData>>) -> (result: Option<usize>)
    requires
        ids.describes(nodes@),
    ensures
        match result {
            Some(i) => role_index(object_data(*root), nodes@, key@) == Some(i as int) && (i as int) < nodes@.len(),
            None => role_index(object_data(*root), nodes@, key@) is None,
        },
{
    match member_get(root, key) {
        Some(v) => match v.string() {
            Some(id) => ids.lookup(id, nodes),
            None => None,
        },
        None => None,
    }
}

/// Whether the node's type may be the entry (`entry`) or the output (otherwise).
fn kind_permits(node: &JsonValue, entry: bool) -> (result: bool)
    ensures
        result == kind_allows(node@, if entry { can_enter() } else { can_end() }),
{
    match text_of(node, "type") {
        Some(kind) => match capabilities_name(kind) {
            Some(c) => if entry {
                c.entry
            } else {
                c.output
            },
            None => false,
        },
        None => false,
    }
}

/// Reports an entry or output that names no single node or a node of the wrong type, and an
/// output with a `next`.
fn check_roles(
    root: &Vec<(String, JsonValue)>,
    nodes: &Vec<JsonValue>,
    entry: Option<usize>,
    output: Option<usize>,
    issues: &mut Vec<IssueData>,
)
    requires
        as_index(entry) == role_index(object_data(*root), array_data(*nodes), "entry"@),
        as_index(output) == role_index(object_data(*root), array_data(*nodes), "output"@),
        entry is Some ==> entry->0 < nodes.len(),
        output is Some ==> output->0 < nodes.len(),
    ensures
        issue_views(final(issues)@) == issue_views(old(issues)@) + role_issues(object_data(*root), array_data(*nodes)),
{
    let ghost nd = array_data(*nodes);
    let ghost rd = object_data(*root);
    let ghost start = issue_views(issues@);
    if member_contains(root, "entry") && entry.is_none() {
        push_issue(issues, "ENTRY_INVALID", owned("/entry"), "entry does not name exactly one node");
    }
    if member_contains(root, "output") && output.is_none() {
        push_issue(issues, "OUTPUT_INVALID", owned("/output"), "output does not name exactly one node");
    }
    if let Some(e) = entry {
        assert(nd[e as int] == nodes[e as int]@);
        if !kind_permits(&nodes[e], true) {
            push_issue(issues, "ENTRY_INVALID", owned("/entry"), "node type is not eligible as entry");
        }
    }
    if let Some(o) = output {
        assert(nd[o as int] == nodes[o as int]@);
        if !kind_permits(&nodes[o], false) {
            push_issue(issues, "OUTPUT_INVALID", owned("/output"), "node type is not eligible as output");
        }
        if ids::field_of(&nodes[o], "next").is_some() {
            push_issue(issues, "OUTPUT_INVALID", concat(node_path_string(o).as_str(), "/next"),
                "output node must not have an outgoing edge");
        }
    }
    assert(issue_views(issues@) =~= start + role_issues(rd, nd));
}

/// Reports every node other than the output whose type needs `next` but has none.
fn check_dead_ends(nodes: &Vec<JsonValue>, output: Option<usize>, issues: &mut Vec<IssueData>)
    ensures
        issue_views(final(issues)@) == issue_views(old(issues)@) + concat_indexed(
            array_data(*nodes),
            dead_end_fn(as_index(output)),
        ),
{
    let ghost nd = array_data(*nodes);
    let ghost f = dead_end_fn(as_index(output));
    let ghost start = issue_views(issues@);
    let mut i: usize = 0;
    while i < nodes.len()
        invariant
            i <= nodes.len(),
            nd == array_data(*nodes),
            nd.len() == nodes.len(),
            f == dead_end_fn(as_index(output)),
            issue_views(issues@) == start + concat_indexed(nd.take(i as int), f),
        decreases nodes.len() - i,
    {
        proof {
            lemma_concat_indexed_step(nd, i as int, f);
        }
        assert(nd[i as int] == nodes[i as int]@);
        match text_of(&nodes[i], "type") {
            Some(kind) => {
                let ordinary = match capabilities_name(kind) {
                    Some(c) => c.ordinary_next,
                    None => false,
                };
                let is_output = match output {
                    Some(o) => o == i,
                    None => false,
                };
                if ordinary && !is_output && ids::field_of(&nodes[i], "next").is_none() {
                    push_issue(issues, "GRAPH_DEAD_END", node_path_string(i), "non-output node requires next");
                }
            },
            None => {},
        }
        assert(issue_views(issues@) =~= start + concat_indexed(nd.take(i + 1), f));
        i = i + 1;
    }
    proof {
        lemma_concat_indexed_all(nd, f);
    }
}

/// Reports the mapping-target clashes and overlapping gate cases of every node.
fn check_specific(nodes: &Vec<JsonValue>, issues: &mut Vec<IssueData>)
    requires
        forall|k: int| 0 <= k < nodes.len() ==> (#[trigger] nodes[k]).wf(),
    ensures
        issue_views(final(issues)@) == issue_views(old(issues)@) + concat_indexed(array_data(*nodes), specific_fn()),
{
    let ghost nd = array_data(*nodes);
    let ghost start = issue_views(issues@);
    let mut i: usize = 0;
    while i < nodes.len()
        invariant
            i <= nodes.len(),
            nd == array_data(*nodes),
            nd.len() == nodes.len(),
            forall|k: int| 0 <= k < nodes.len() ==> (#[trigger] nodes[k]).wf(),
            issue_views(issues@) == start + concat_indexed(nd.take(i as int), specific_fn()),
        decreases nodes.len() - i,
    {
        proof {
            lemma_concat_indexed_step(nd, i as int, specific_fn());
        }
        assert(nd[i as int] == nodes[i as int]@);
        let ghost before = issue_views(issues@);
        let typed = text_of(&nodes[i], "type");
        if typed.is_some() && text_eq(typed.unwrap(), "map-schema") {
            validate_mapping_targets(&nodes[i], i, issues);
        }
        let ghost middle = issue_views(issues@);
        assert(middle =~= before + mapping_target_issues(i as int, nd[i as int]));
        if typed.is_some() && text_eq(typed.unwrap(), "deterministic-gate") {
            validate_gate_overlaps(&nodes[i], i, issues);
        }
        assert(issue_views(issues@) =~= middle + gate_overlap_issues(i as int, nd[i as int]));
        assert(issue_views(issues@) =~= start + concat_indexed(nd.take(i + 1), specific_fn()));
        i = i + 1;
    }
    proof {
        lemma_concat_indexed_all(nd, specific_fn());
    }
}

/// Reports every node the entry does not reach.
fn check_unreachable(nodes: &Vec<JsonValue>, reachable: &Vec<bool>, g: Ghost<Seq<Seq<usize>>>, entry: Ghost<int>, issues: &mut Vec<IssueData>)
    requires
        reachable.len() == nodes.len(),
        forall|b: int| 0 <= b < nodes.len() ==> (#[trigger] reachable[b] <==> reaches(g@, entry@, b)),
    ensures
        issue_views(final(issues)@) == issue_views(old(issues)@) + concat_indexed(array_data(*nodes), unreachable_fn(g@, entry@)),
{
    let ghost nd = array_data(*nodes);
    let ghost f = unreachable_fn(g@, entry@);
    let ghost start = issue_views(issues@);
    let mut i: usize = 0;
    while i < nodes.len()
        invariant
            i <= nodes.len(),
            nd == array_data(*nodes),
            nd.len() == nodes.len(),
            reachable.len() == nodes.len(),
            forall|b: int| 0 <= b < nodes.len() ==> (#[trigger] reachable[b] <==> reaches(g@, entry@, b)),
            f == unreachable_fn(g@, entry@),
            issue_views(issues@) == start + concat_indexed(nd.take(i as int), f),
        decreases nodes.len() - i,
    {
        proof {
            lemma_concat_indexed_step(nd, i as int, f);
        }
        if !reachable[i] {
            push_issue(issues, "GRAPH_UNREACHABLE", concat(node_path_string(i).as_str(), "/id"), "node is unreachable from entry");
        }
        assert(issue_views(issues@) =~= start + concat_indexed(nd.take(i + 1), f));
        i = i + 1;
    }
    proof {
        lemma_concat_indexed_all(nd, f);
    }
}

/// Reports every node the entry reaches that reaches neither the output nor a raise-error node.
fn check_stranded(
    nodes: &Vec<JsonValue>,
    reachable: &Vec<bool>,
    terminal: &Vec<bool>,
    g: Ghost<Seq<Seq<usize>>>,
    entry: Ghost<int>,
    output: Ghost<int>,
    issues: &mut Vec<IssueData>,
)
    requires
        reachable.len() == nodes.len(),
        terminal.len() == nodes.len(),
        forall|b: int| 0 <= b < nodes.len() ==> (#[trigger] reachable[b] <==> reaches(g@, entry@, b)),
        forall|b: int| 0 <= b < nodes.len() ==> (#[trigger] terminal[b] <==> reaches_terminal(g@, array_data(*nodes), output@, b)),
    ensures
        issue_views(final(issues)@) == issue_views(old(issues)@) + concat_indexed(
            array_data(*nodes),
            stranded_fn(g@, array_data(*nodes), entry@, output@),
        ),
{
    let ghost nd = array_data(*nodes);
    let ghost f = stranded_fn(g@, nd, entry@, output@);
    let ghost start = issue_views(issues@);
    let mut i: usize = 0;
    while i < nodes.len()
        invariant
            i <= nodes.len(),
            nd == array_data(*nodes),
            nd.len() == nodes.len(),
            reachable.len() == nodes.len(),
            terminal.len() == nodes.len(),
            forall|b: int| 0 <= b < nodes.len() ==> (#[trigger] reachable[b] <==> reaches(g@, entry@, b)),
            forall|b: int| 0 <= b < nodes.len() ==> (#[trigger] terminal[b] <==> reaches_terminal(g@, nd, output@, b)),
            f == stranded_fn(g@, nd, entry@, output@),
            issue_views(issues@) == start + concat_indexed(nd.take(i as int), f),
        decreases nodes.len() - i,
    {
        proof {
            lemma_concat_indexed_step(nd, i as int, f);
        }
        if reachable[i] && !terminal[i] {
            push_issue(issues, "GRAPH_DEAD_END", concat(node_path_string(i).as_str(), "/id"), "successful path cannot reach output");
        }
        assert(issue_views(issues@) =~= start + concat_indexed(nd.take(i + 1), f));
        i = i + 1;
    }
    proof {
        lemma_concat_indexed_all(nd, f);
    }
}

/// Whether a node lists itself among its edges.
fn has_self_edge(edges: &Vec<Vec<usize>>, node: usize) -> (result: bool)
    requires
        node < edges.len(),
    ensures
        result == has_edge(adjacency(*edges), node as int, node as int),
{
    let targets = &edges[node];
    assert(targets@ == adjacency(*edges)[node as int]);
    let mut k: usize = 0;
    while k < targets.len()
        invariant
            k <= targets.len(),
            node < edges.len(),
            targets@ == adjacency(*edges)[node as int],
            forall|q: int| 0 <= q < k ==> targets@[q] != node,
        decreases targets.len() - k,
    {
        if targets[k] == node {
            assert(targets@[k as int] == node);
            assert(adjacency(*edges)[node as int].contains(node));
            return true;
        }
        k = k + 1;
    }
    false
}

/// A cycle issue, reported at the identifier of a node that lies on a cycle.
pub open spec fn cycle_issue(g: Seq<Seq<usize>>, issue: IssueView) -> bool {
    &&& issue.1 == "GRAPH_CYCLE"@
    &&& issue.2 == "workflow graph contains a cycle"@
    &&& exists|i: int| 0 <= i < g.len() && #[trigger] on_cycle(g, i) && issue.0 == id_path(i)
}

/// Every issue from position `from` on reports a cycle.
pub open spec fn cycle_issues(g: Seq<Seq<usize>>, issues: Seq<IssueView>, from: int) -> bool {
    forall|k: int| from <= k < issues.len() ==> cycle_issue(g, #[trigger] issues[k])
}

/// The identifier text of a node, empty when it has none.
pub open spec fn id_or_empty(node: JsonData) -> Seq<char> {
    match node_text(node, "id"@) {
        Some(t) => t,
        None => Seq::empty(),
    }
}

/// `reps` holds the node each cycle issue names: one node of every strongly connected
/// component that holds a cycle and of no other, never two of one component, each with no
/// smaller identifier in its component, and each issue at its node's `id`.
pub open spec fn cycle_reps(nodes: Seq<JsonData>, g: Seq<Seq<usize>>, cycles: Seq<IssueView>, reps: Seq<int>) -> bool {
    &&& reps.len() == cycles.len()
    &&& forall|k: int| 0 <= k < reps.len() ==> 0 <= #[trigger] reps[k] < g.len() && on_cycle(g, reps[k])
        && cycles[k] == (id_path(reps[k]), "GRAPH_CYCLE"@, "workflow graph contains a cycle"@)
    &&& forall|k: int, v: int| 0 <= k < reps.len() && 0 <= v < g.len() && #[trigger] same_scc(g, v, reps[k])
        ==> !text_lt(id_or_empty(nodes[v]), id_or_empty(nodes[reps[k]]))
    &&& forall|k: int, l: int| 0 <= k < l < reps.len() ==> !same_scc(g, #[trigger] reps[k], #[trigger] reps[l])
    &&& forall|v: int| 0 <= v < g.len() && #[trigger] on_cycle(g, v) ==> exists|k: int| 0 <= k < reps.len() && #[trigger] same_scc(g, v, reps[k])
}

/// The cycle issues are exactly one per strongly connected component that holds a cycle, at
/// the node of that component with the smallest identifier.
#[verifier::opaque]
pub open spec fn cycles_exact(nodes: Seq<JsonData>, g: Seq<Seq<usize>>, cycles: Seq<IssueView>) -> bool {
    exists|reps: Seq<int>| #[trigger] cycle_reps(nodes, g, cycles, reps)
}

/// With the strongly connected components, the nodes picked from the components that show a
/// cycle make the cycle issues exact.
proof fn lemma_cycles_exact(
    nd: Seq<JsonData>,
    g: Seq<Seq<usize>>,
    components: Vec<Vec<usize>>,
    cycles: Seq<IssueView>,
    reps: Seq<int>,
    rc: Seq<int>,
)
    requires
        graph_wf(g),
        g.len() <= usize::MAX,
        forall|q: int| 0 <= q < components.len() ==> (#[trigger] components[q]).len() >= 1,
        forall|q: int, p: int| 0 <= q < components.len() && 0 <= p < components[q].len() ==> #[trigger] components[q][p] < g.len()
            && reaches(g, components[q][p] as int, components[q][0] as int),
        forall|q: int, p: int| 0 <= q < components.len() && 0 <= p < components[q].len()
            ==> reaches(g, components[q][0] as int, #[trigger] components[q][p] as int),
        forall|q: int, p: int| 0 <= q < components.len() && 0 < p < components[q].len() ==> #[trigger] components[q][p] != components[q][0],
        forall|v: int| 0 <= v < g.len() ==> #[trigger] covered(component_lists(components), v),
        forall|q: int, d: int, a: int, b: int| 0 <= q < components.len() && 0 <= d < components.len() && 0 <= a < components[q].len()
            && 0 <= b < components[d].len() ==> (q == d <==> same_scc(g, #[trigger] components[q][a] as int, #[trigger] components[d][b] as int)),
        reps.len() == rc.len(),
        reps.len() == cycles.len(),
        forall|k: int| 0 <= k < rc.len() ==> 0 <= #[trigger] rc[k] < components.len(),
        forall|k: int, l: int| 0 <= k < l < rc.len() ==> #[trigger] rc[k] < #[trigger] rc[l],
        forall|k: int| 0 <= k < rc.len() ==> #[trigger] components@[rc[k]]@.contains(reps[k] as usize) && 0 <= reps[k] < g.len(),
        forall|k: int| 0 <= k < rc.len() ==> cyclic_component(g, #[trigger] components@[rc[k]]@),
        forall|k: int, p: int| 0 <= k < rc.len() && 0 <= p < components@[rc[k]].len()
            ==> !text_lt(id_or_empty(nd[#[trigger] components@[rc[k]]@[p] as int]), id_or_empty(nd[reps[k]])),
        forall|k: int| 0 <= k < reps.len() ==> #[trigger] cycles[k] == (id_path(reps[k]), "GRAPH_CYCLE"@, "workflow graph contains a cycle"@),
        forall|q: int| 0 <= q < components.len() && cyclic_component(g, #[trigger] components@[q]@) ==> exists|k: int| 0 <= k < rc.len() && rc[k] == q,
    ensures
        cycles_exact(nd, g, cycles),
{
    let lists = component_lists(components);
    assert forall|k: int| 0 <= k < reps.len() implies 0 <= #[trigger] reps[k] < g.len() && on_cycle(g, reps[k])
        && cycles[k] == (id_path(reps[k]), "GRAPH_CYCLE"@, "workflow graph contains a cycle"@) by {
        let comp = components@[rc[k]]@;
        assert forall|p: int| 0 <= p < comp.len() implies #[trigger] comp[p] < g.len()
            && reaches(g, comp[p] as int, comp[0] as int) && reaches(g, comp[0] as int, comp[p] as int) by {
            assert(comp[p] == components[rc[k]][p]);
            assert(reaches(g, components[rc[k]][0] as int, components[rc[k]][p] as int));
        }
        assert forall|p: int| 0 < p < comp.len() implies #[trigger] comp[p] != comp[0] by {
            assert(comp[p] == components[rc[k]][p]);
        }
        crate::graph::algorithms::lemma_cyclic_component_is_cycle(g, comp);
        assert(comp.contains(reps[k] as usize));
        let p = choose|p: int| 0 <= p < comp.len() && comp[p] == reps[k] as usize;
        assert(0 <= p < comp.len());
        assert(on_cycle(g, comp[p] as int));
        assert(comp[p] as int == reps[k]);
    }
    assert forall|k: int, v: int| 0 <= k < reps.len() && 0 <= v < g.len() && #[trigger] same_scc(g, v, reps[k])
        implies !text_lt(id_or_empty(nd[v]), id_or_empty(nd[reps[k]])) by {
        assert(covered(lists, v));
        let d = choose|d: int| #[trigger] in_component(lists, d, v);
        assert(lists[d] == components@[d]@);
        let b = choose|b: int| 0 <= b < lists[d].len() && lists[d][b] == v as usize;
        assert(components@[rc[k]]@.contains(reps[k] as usize));
        let p = choose|p: int| 0 <= p < components@[rc[k]]@.len() && components@[rc[k]]@[p] == reps[k] as usize;
        assert(components[d][b] == v as usize);
        assert(components[rc[k]][p] == reps[k] as usize);
        assert(same_scc(g, components[d][b] as int, components[rc[k]][p] as int));
        assert(d == rc[k]);
        assert(components@[rc[k]]@[b] == v as usize);
    }
    assert forall|k: int, l: int| 0 <= k < l < reps.len() implies !same_scc(g, #[trigger] reps[k], #[trigger] reps[l]) by {
        assert(components@[rc[k]]@.contains(reps[k] as usize));
        let p = choose|p: int| 0 <= p < components@[rc[k]]@.len() && components@[rc[k]]@[p] == reps[k] as usize;
        assert(components@[rc[l]]@.contains(reps[l] as usize));
        let q = choose|q: int| 0 <= q < components@[rc[l]]@.len() && components@[rc[l]]@[q] == reps[l] as usize;
        assert(components[rc[k]][p] == reps[k] as usize);
        assert(components[rc[l]][q] == reps[l] as usize);
        assert(rc[k] != rc[l]);
        assert(!same_scc(g, components[rc[k]][p] as int, components[rc[l]][q] as int));
    }
    assert forall|v: int| 0 <= v < g.len() && #[trigger] on_cycle(g, v) implies exists|k: int| 0 <= k < reps.len() && #[trigger] same_scc(g, v, reps[k]) by {
        assert(covered(lists, v));
        let d = choose|d: int| #[trigger] in_component(lists, d, v);
        assert(lists[d] == components@[d]@);
        let b = choose|b: int| 0 <= b < lists[d].len() && lists[d][b] == v as usize;
        assert(components[d][b] == v as usize);
        if components[d].len() == 1 {
            let w = choose|w: int| #[trigger] has_edge(g, v, w) && reaches(g, w, v);
            crate::graph::algorithms::lemma_reaches_self(g, v);
            crate::graph::algorithms::lemma_reaches_step(g, v, v, w);
            assert(covered(lists, w));
            let e = choose|e: int| #[trigger] in_component(lists, e, w);
            assert(lists[e] == components@[e]@);
            let b2 = choose|b2: int| 0 <= b2 < lists[e].len() && lists[e][b2] == w as usize;
            assert(components[e][b2] == w as usize);
            assert(same_scc(g, components[d][b] as int, components[e][b2] as int));
            assert(e == d);
            assert(b == 0 && b2 == 0);
            assert(components@[d]@[0] == v as usize);
            assert(cyclic_component(g, components@[d]@));
        } else {
            assert(cyclic_component(g, components@[d]@));
        }
        let k = choose|k: int| 0 <= k < rc.len() && rc[k] == d;
        assert(components@[rc[k]]@.contains(reps[k] as usize));
        let p = choose|p: int| 0 <= p < components@[rc[k]]@.len() && components@[rc[k]]@[p] == reps[k] as usize;
        assert(components[d][p] == reps[k] as usize);
        assert(same_scc(g, components[d][b] as int, components[d][p] as int));
    }
    assert(cycle_reps(nd, g, cycles, reps));
    reveal(cycles_exact);
}

/// Reports each component with more than one node or a self edge, at its node with the
/// smallest identifier; returns whether there was one.
#[verifier::rlimit(100)]
#[verifier::spinoff_prover]
fn check_cycles(nodes: &Vec<JsonValue>, edges: &Vec<Vec<usize>>, issues: &mut Vec<IssueData>) -> (has_cycle: bool)
    requires
        graph_wf(adjacency(*edges)),
        nodes.len() == edges.len(),
    ensures
        issue_views(final(issues)@).take(old(issues).len() as int) == issue_views(old(issues)@),
        cycle_issues(adjacency(*edges), issue_views(final(issues)@), old(issues).len() as int),
        has_cycle == (final(issues).len() > old(issues).len()),
        final(issues).len() >= old(issues).len(),
        has_cycle == crate::graph::algorithms::has_cycle(adjacency(*edges)),
        cycles_exact(array_data(*nodes), adjacency(*edges), issue_views(final(issues)@).skip(old(issues).len() as int)),
{
    let ghost start = issue_views(issues@);
    let ghost nd = array_data(*nodes);
    let start_len = issues.len();
    let components = strongly_connected(edges);
    let ghost g = adjacency(*edges);
    let ghost mut reps: Seq<int> = Seq::empty();
    let ghost mut rc: Seq<int> = Seq::empty();
    let mut c: usize = 0;
    while c < components.len()
        invariant
            c <= components.len(),
            nodes.len() == edges.len(),
            nd == array_data(*nodes),
            start_len == start.len(),
            issues.len() >= start_len,
            issue_views(issues@).take(start_len as int) == start,
            cycle_issues(g, issue_views(issues@), start_len as int),
            forall|q: int, p: int| 0 <= q < components.len() && 0 <= p < components[q].len() ==> #[trigger] components[q][p] < edges.len(),
            forall|q: int| 0 <= q < components.len() ==> (#[trigger] components[q]).len() >= 1,
            g == adjacency(*edges),
            graph_wf(g),
            issues.len() > start_len || forall|q: int| 0 <= q < c ==> !cyclic_component(g, #[trigger] components@[q]@),
            issues.len() > start_len ==> crate::graph::algorithms::has_cycle(g),
            forall|q: int, p: int| 0 <= q < components.len() && 0 <= p < components[q].len() ==> #[trigger] components[q][p] < edges.len()
                && reaches(g, components[q][p] as int, components[q][0] as int),
            forall|q: int, p: int| 0 <= q < components.len() && 0 <= p < components[q].len()
                ==> reaches(g, components[q][0] as int, #[trigger] components[q][p] as int),
            forall|q: int, p: int| 0 <= q < components.len() && 0 < p < components[q].len() ==> #[trigger] components[q][p] != components[q][0],
            reps.len() == rc.len(),
            reps.len() == issues.len() - start_len,
            forall|k: int| 0 <= k < rc.len() ==> 0 <= #[trigger] rc[k] < c,
            forall|k: int, l: int| 0 <= k < l < rc.len() ==> #[trigger] rc[k] < #[trigger] rc[l],
            forall|k: int| 0 <= k < rc.len() ==> #[trigger] components@[rc[k]]@.contains(reps[k] as usize) && 0 <= reps[k] < g.len(),
            forall|k: int| 0 <= k < rc.len() ==> cyclic_component(g, #[trigger] components@[rc[k]]@),
            forall|k: int, p: int| 0 <= k < rc.len() && 0 <= p < components@[rc[k]].len()
                ==> !text_lt(id_or_empty(nd[#[trigger] components@[rc[k]]@[p] as int]), id_or_empty(nd[reps[k]])),
            forall|k: int| 0 <= k < reps.len() ==> #[trigger] issue_views(issues@)[start_len + k]
                == (id_path(reps[k]), "GRAPH_CYCLE"@, "workflow graph contains a cycle"@),
            forall|q: int| 0 <= q < c && cyclic_component(g, #[trigger] components@[q]@) ==> exists|k: int| 0 <= k < rc.len() && rc[k] == q,
        decreases components.len() - c,
    {
        let component = &components[c];
        assert(component.len() >= 1);
        assert(component[0] < edges.len());
        if component.len() > 1 || has_self_edge(edges, component[0]) {
            proof {
                let comp = components@[c as int]@;
                assert forall|p: int| 0 <= p < comp.len() implies #[trigger] comp[p] < g.len()
                    && reaches(g, comp[p] as int, comp[0] as int) && reaches(g, comp[0] as int, comp[p] as int) by {
                    assert(comp[p] == components[c as int][p]);
                    assert(reaches(g, components[c as int][0] as int, components[c as int][p] as int));
                }
                assert forall|p: int| 0 < p < comp.len() implies #[trigger] comp[p] != comp[0] by {
                    assert(comp[p] == components[c as int][p]);
                }
                assert(cyclic_component(g, comp));
                assert(g.len() <= usize::MAX);
                crate::graph::algorithms::lemma_cyclic_component_is_cycle(g, comp);
                assert forall|q: int| 0 <= q < component.len() implies on_cycle(g, #[trigger] component[q] as int) by {
                    assert(comp[q] == component[q]);
                }
            }
            let mut best: usize = component[0];
            assert(nd[best as int] == nodes[best as int]@);
            let mut best_id: &str = match text_of(&nodes[best], "id") {
                Some(t) => t,
                None => "",
            };
            proof {
                reveal_strlit("");
                lemma_text_lt_irreflexive(best_id@);
            }
            let ghost mut bq: int = 0;
            let mut p: usize = 1;
            while p < component.len()
                invariant
                    1 <= p <= component.len(),
                    nodes.len() == edges.len(),
                    nd == array_data(*nodes),
                    best < nodes.len(),
                    forall|q: int| 0 <= q < component.len() ==> #[trigger] component[q] < edges.len(),
                    forall|q: int| 0 <= q < component.len() ==> on_cycle(g, #[trigger] component[q] as int),
                    on_cycle(g, best as int),
                    0 <= bq < p,
                    component[bq] == best,
                    best_id@ == id_or_empty(nd[best as int]),
                    forall|q: int| 0 <= q < p ==> !text_lt(id_or_empty(nd[#[trigger] component[q] as int]), best_id@),
                decreases component.len() - p,
            {
                let candidate = component[p];
                assert(nd[candidate as int] == nodes[candidate as int]@);
                let candidate_id: &str = match text_of(&nodes[candidate], "id") {
                    Some(t) => t,
                    None => "",
                };
                proof {
                    reveal_strlit("");
                }
                assert(candidate_id@ == id_or_empty(nd[candidate as int]));
                if text_less(candidate_id, best_id) {
                    proof {
                        assert forall|q: int| 0 <= q < p + 1 implies !text_lt(id_or_empty(nd[#[trigger] component[q] as int]), candidate_id@) by {
                            if q == p {
                                lemma_text_lt_irreflexive(candidate_id@);
                            } else if text_lt(id_or_empty(nd[component[q] as int]), candidate_id@) {
                                lemma_text_lt_transitive(id_or_empty(nd[component[q] as int]), candidate_id@, best_id@);
                            }
                        }
                        bq = p as int;
                    }
                    best = candidate;
                    best_id = candidate_id;
                }
                p = p + 1;
            }
            let ghost before = issue_views(issues@);
            push_issue(issues, "GRAPH_CYCLE", concat(node_path_string(best).as_str(), "/id"), "workflow graph contains a cycle");
            proof {
                let now = issue_views(issues@);
                assert(cycle_issue(g, now[now.len() - 1]));
                assert forall|k: int| start_len <= k < now.len() implies cycle_issue(g, #[trigger] now[k]) by {
                    if k < before.len() {
                        assert(now[k] == before[k]);
                    }
                }
                assert(now.take(start_len as int) =~= before.take(start_len as int));
                let comp = components@[c as int]@;
                assert(comp[bq] == best);
                let old_reps = reps;
                let old_rc = rc;
                reps = reps.push(best as int);
                rc = rc.push(c as int);
                assert(rc[rc.len() - 1] == c as int);
                assert(reps[reps.len() - 1] == best as int);
                assert forall|k: int| 0 <= k < old_rc.len() implies rc[k] == old_rc[k] && reps[k] == old_reps[k] by {}
                assert forall|k: int| 0 <= k < reps.len() implies #[trigger] issue_views(issues@)[start_len + k]
                    == (id_path(reps[k]), "GRAPH_CYCLE"@, "workflow graph contains a cycle"@) by {
                    if k < reps.len() - 1 {
                        assert(now[start_len + k] == before[start_len + k]);
                    }
                }
                assert forall|k: int| 0 <= k < rc.len() implies #[trigger] components@[rc[k]]@.contains(reps[k] as usize) && 0 <= reps[k] < g.len() by {
                    if k == rc.len() - 1 {
                        assert(components@[rc[k]]@[bq] == reps[k] as usize);
                    } else {
                        assert(components@[old_rc[k]]@.contains(old_reps[k] as usize));
                    }
                }
                assert forall|k: int, pp: int| 0 <= k < rc.len() && 0 <= pp < components@[rc[k]].len()
                    implies !text_lt(id_or_empty(nd[#[trigger] components@[rc[k]]@[pp] as int]), id_or_empty(nd[reps[k]])) by {
                    if k == rc.len() - 1 {
                        assert(components@[rc[k]]@[pp] == component[pp]);
                    }
                }
                assert forall|q: int| 0 <= q < c + 1 && cyclic_component(g, #[trigger] components@[q]@) implies exists|k: int| 0 <= k < rc.len() && rc[k] == q by {
                    if q == c {
                        let k = rc.len() - 1;
                        assert(0 <= k < rc.len() && rc[k] == q);
                    } else {
                        let k = choose|k: int| 0 <= k < old_rc.len() && old_rc[k] == q;
                        assert(rc[k] == q);
                    }
                }
            }
        } else {
            proof {
                assert(!cyclic_component(g, components@[c as int]@)) by {
                    assert(components@[c as int]@[0] == component[0]);
                }
                assert forall|q: int| 0 <= q < c + 1 && cyclic_component(g, #[trigger] components@[q]@) implies exists|k: int| 0 <= k < rc.len() && rc[k] == q by {
                }
            }
        }
        c = c + 1;
    }
    proof {
        let cycles = issue_views(issues@).skip(start_len as int);
        assert forall|k: int| 0 <= k < reps.len() implies #[trigger] cycles[k] == (id_path(reps[k]), "GRAPH_CYCLE"@, "workflow graph contains a cycle"@) by {
            assert(cycles[k] == issue_views(issues@)[start_len + k]);
        }
        assert forall|k: int| 0 <= k < rc.len() implies #[trigger] components@[rc[k]]@.contains(reps[k] as usize)
            && 0 <= reps[k] < g.len() by {
            assert(components@[rc[k]]@.contains(reps[k] as usize));
        }
        assert forall|k: int| 0 <= k < rc.len() implies cyclic_component(g, #[trigger] components@[rc[k]]@) by {}
        lemma_cycles_exact(nd, g, components, cycles, reps, rc);
    }
    proof {
        if crate::graph::algorithms::has_cycle(g) {
            lemma_cycle_shows_in_component(g, component_lists(components));
            let c = choose|c: int| 0 <= c < component_lists(components).len()
                && #[trigger] cyclic_component(g, component_lists(components)[c]);
            assert(component_lists(components)[c] == components@[c]@);
        }
    }
    issues.len() > start_len
}

/// A sequence is its first `n` elements followed by the rest.
proof fn lemma_split<T>(now: Seq<T>, prefix: Seq<T>, n: int)
    requires
        0 <= n <= now.len(),
        now.take(n) == prefix,
    ensures
        now == prefix + now.skip(n),
{
    assert(now =~= now.take(n) + now.skip(n));
}

/// Walks the graph from its entry: unreachable nodes, cycles, nodes that cannot finish, and,
/// without cycles, activity.
fn walk_graph(
    nodes: &Vec<JsonValue>,
    edges: &Vec<Vec<usize>>,
    ids: &IdIndex,
    entry: usize,
    output: usize,
    issues: &mut Vec<IssueData>,
)
    requires
        graph_wf(adjacency(*edges)),
        adjacency(*edges) == graph_of(array_data(*nodes)),
        nodes.len() == edges.len(),
        entry < nodes.len(),
        output < nodes.len(),
        ids.describes(array_data(*nodes)),
    ensures
        final(issues).len() >= old(issues).len(),
        issue_views(final(issues)@).take(old(issues).len() as int) == issue_views(old(issues)@),
        exists|cycles: Seq<IssueView>, activity: Seq<IssueView>| walk_issues_fit(
            array_data(*nodes),
            entry as int,
            output as int,
            #[trigger] issue_views(final(issues)@).skip(old(issues).len() as int),
            cycles,
            activity,
        ),
{
    let ghost nd = array_data(*nodes);
    let ghost g = adjacency(*edges);
    let ghost start = issue_views(issues@);
    let start_len = issues.len();
    let reachable = reachable_from(entry, edges);
    check_unreachable(nodes, &reachable, Ghost(g), Ghost(entry as int), issues);
    let ghost unreachable = concat_indexed(nd, unreachable_fn(g, entry as int));
    let ghost after_unreachable = issue_views(issues@);
    let cycle_from = issues.len();
    let has_cycle = check_cycles(nodes, edges, issues);
    let ghost after_cycles = issue_views(issues@);
    let ghost cycles = after_cycles.skip(cycle_from as int);
    proof {
        lemma_split(after_cycles, after_unreachable, cycle_from as int);
        assert forall|k: int| 0 <= k < cycles.len() implies cycle_issue(g, #[trigger] cycles[k]) by {
            assert(cycles[k] == after_cycles[cycle_from + k]);
        }
    }
    let terminal = can_reach_terminal(output, nodes, edges);
    check_stranded(nodes, &reachable, &terminal, Ghost(g), Ghost(entry as int), Ghost(output as int), issues);
    let ghost stranded = concat_indexed(nd, stranded_fn(g, nd, entry as int, output as int));
    let ghost after_stranded = issue_views(issues@);
    let activity_from = issues.len();
    if !has_cycle {
        validate_activity(nodes, edges, ids, entry, issues);
    }
    let ghost now = issue_views(issues@);
    let ghost activity = now.skip(activity_from as int);
    proof {
        if !has_cycle {
            assert(now.take(activity_from as int) =~= after_stranded) by {
                assert forall|k: int| 0 <= k < activity_from implies now.take(activity_from as int)[k] == after_stranded[k] by {
                    assert(issues@.take(activity_from as int)[k] == issues@[k]);
                }
            }
            assert(activity =~= activity::activity_run(activity::initial_sets(nd.len() as int, entry as int), nd,
                activity::topological_order(g), activity::branch_ids(nd), activity::retirements(nd, g)).1);
            assert forall|k: int| 0 <= k < activity.len() implies activity_issue(nd, #[trigger] activity[k]) by {
                assert(activity[k] == now[activity_from + k]);
                assert(now[activity_from + k] == issues@[activity_from + k]@);
            }
        } else {
            assert(now.take(activity_from as int) =~= after_stranded);
        }
        lemma_split(now, after_stranded, activity_from as int);
        assert(now =~= start + (unreachable + cycles + stranded + activity));
        assert(now.take(start_len as int) =~= start);
        assert(now.skip(start_len as int) =~= unreachable + cycles + stranded + activity);
        assert(walk_issues_fit(nd, entry as int, output as int, now.skip(start_len as int), cycles, activity));
    }
}

/// Reports every semantic issue of a specification: identifier collisions, missing references,
/// entry and output problems, dead ends, mapping-target and gate-case overlaps and flow
/// problems; then, when every reference resolves and the entry and output each name one node,
/// unreachable nodes, cycles, nodes that cannot finish, and (without cycles) activity; otherwise
/// only the cycles among the references that resolve.
#[verifier::rlimit(100)]
#[verifier::spinoff_prover]
pub fn validate_semantics(value: &JsonValue, issues: &mut Vec<IssueData>)
    requires
        value.wf(),
    ensures
        final(issues).len() >= old(issues).len(),
        issue_views(final(issues)@).take(old(issues).len() as int) == issue_views(old(issues)@),
        semantic_issues_fit(value@, issue_views(final(issues)@).skip(old(issues).len() as int)),
{
    let ghost start = issue_views(issues@);
    let ghost start_len = issues.len() as int;
    let root = match value.object() {
        Some(root) => root,
        None => {
            assert(issue_views(issues@).take(start_len) =~= start);
            assert(issue_views(issues@).skip(start_len).len() == 0);
            return;
        },
    };
    let ghost rd = object_data(*root);
    let nodes = match member_get(root, "nodes") {
        Some(v) => match v.array() {
            Some(items) => items,
            None => {
                assert(issue_views(issues@).take(start_len) =~= start);
                assert(issue_views(issues@).skip(start_len).len() == 0);
                return;
            },
        },
        None => {
            assert(issue_views(issues@).take(start_len) =~= start);
            assert(issue_views(issues@).skip(start_len).len() == 0);
            return;
        },
    };
    let ghost nd = array_data(*nodes);
    assert(member(rd, "nodes"@) == Some(JsonData::Array(nd)));
    proof {
        crate::json_value::lemma_member_data_wf(rd, "nodes"@);
        assert forall|k: int| 0 <= k < nodes.len() implies (#[trigger] nodes[k]).wf() by {
            assert(nd[k] == nodes[k]@);
        }
    }
    let ids = index_ids(nodes, issues);
    let table = define_flows(nodes, &ids, issues);
    let (edges, failure) = link_nodes(nodes, &ids, issues);
    let entry = role_of(root, "entry", &ids, Ghost(nd));
    let output = role_of(root, "output", &ids, Ghost(nd));
    check_roles(root, nodes, entry, output, issues);
    check_dead_ends(nodes, output, issues);
    check_specific(nodes, issues);
    validate_flows(nodes, &ids, &table, !failure, issues);
    let ghost local = local_issues(rd, nd);
    assert(issue_views(issues@) =~= start + local);
    let ghost after_local = issue_views(issues@);
    proof {
        assert(after_local.take(start_len) =~= start);
        assert(after_local.skip(start_len) =~= local);
    }
    if failure || entry.is_none() || output.is_none() {
        assert(adjacency(edges) =~= graph_of(nd));
        let cycle_from = issues.len();
        check_cycles(nodes, &edges, issues);
        proof {
            let now = issue_views(issues@);
            lemma_split(now, after_local, cycle_from as int);
            assert(now.take(start_len) =~= start);
            let rest = now.skip(start_len);
            assert(rest =~= local + now.skip(cycle_from as int));
            assert(rest.take(local.len() as int) =~= local);
            assert(rest.skip(local.len() as int) =~= now.skip(cycle_from as int));
            let cycles = now.skip(cycle_from as int);
            assert forall|k: int| 0 <= k < cycles.len() implies cycle_issue(graph_of(nd), #[trigger] cycles[k]) by {
                assert(cycles[k] == now[cycle_from + k]);
            }
        }
        return;
    }
    let e = entry.unwrap();
    let o = output.unwrap();
    assert(adjacency(edges) =~= graph_of(nd));
    let local_len = issues.len();
    walk_graph(nodes, &edges, &ids, e, o, issues);
    proof {
        let now = issue_views(issues@);
        let walk = now.skip(local_len as int);
        lemma_split(now, after_local, local_len as int);
        assert(now.take(start_len) =~= start);
        let rest = now.skip(start_len);
        assert(rest =~= local + walk);
        assert(rest.take(local.len() as int) =~= local);
        assert(rest.skip(local.len() as int) =~= walk);
    }
}

} // verus!
