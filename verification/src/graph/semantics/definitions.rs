//! The flows that fan-out branches define, and definitions that collide.
use vstd::prelude::*;
use vstd::hash_map::StringHashMap;

use super::{flat_indexed, lemma_flat_indexed_all, lemma_flat_indexed_step};
use super::ids::{field_of, id_count, node_field, node_text, text_of, IdIndex};
use crate::diagnostics::{concat_indexed, issue_views, lemma_concat_indexed_all, lemma_concat_indexed_step,
    push_issue, IssueData, IssueView};
use crate::graph::structure::node::{indexed, indexed_string};
use crate::json_value::{array_data, JsonData, JsonValue};
use crate::text::{concat, node_path, node_path_string, owned, text_eq};

verus! {

/// A flow definition: the flow identifier and the path of the branch `id` that defines it.
pub type FlowDefinition = (Seq<char>, Seq<char>);

/// The definition a branch of the fan-out node `i` makes, if its `id` is a string.
pub open spec fn branch_def(i: int) -> spec_fn(int, JsonData) -> Seq<FlowDefinition> {
    |k: int, branch: JsonData| match node_text(branch, "id"@) {
        Some(flow) => seq![(flow, indexed(node_path(i) + "/branches"@, k) + "/id"@)],
        None => Seq::empty(),
    }
}

/// The definitions node `i` makes: one per branch with a string `id`, when it is a fan-out.
pub open spec fn node_defs(i: int, node: JsonData) -> Seq<FlowDefinition> {
    if node_text(node, "type"@) == Some("fan-out"@) {
        match node_field(node, "branches"@) {
            Some(JsonData::Array(branches)) => flat_indexed(branches, branch_def(i)),
            _ => Seq::empty(),
        }
    } else {
        Seq::empty()
    }
}

pub open spec fn node_defs_fn() -> spec_fn(int, JsonData) -> Seq<FlowDefinition> {
    |i: int, node: JsonData| node_defs(i, node)
}

/// Every flow definition, in node and branch order.
pub open spec fn flow_defs(nodes: Seq<JsonData>) -> Seq<FlowDefinition> {
    flat_indexed(nodes, node_defs_fn())
}

/// An earlier definition has the same flow identifier.
pub open spec fn defined_before(defs: Seq<FlowDefinition>, k: int, flow: Seq<char>) -> bool {
    exists|j: int| 0 <= j < k && #[trigger] defs[j].0 == flow
}

/// The last definition of a flow identifier.
pub open spec fn last_def(defs: Seq<FlowDefinition>, flow: Seq<char>) -> int
    decreases defs.len(),
{
    if defs.len() == 0 {
        -1
    } else if defs.last().0 == flow {
        defs.len() - 1
    } else {
        last_def(defs.drop_last(), flow)
    }
}

/// A definition collides when a node defines the identifier or an earlier branch did.
pub open spec fn def_collision_fn(nodes: Seq<JsonData>, defs: Seq<FlowDefinition>) -> spec_fn(int, FlowDefinition) -> Seq<IssueView> {
    |k: int, d: FlowDefinition| if id_count(nodes, d.0) >= 1 || defined_before(defs, k, d.0) {
        seq![(d.1, "ID_COLLISION"@, "flow identifier collides in the graph namespace"@)]
    } else {
        Seq::empty()
    }
}

/// The colliding flow definitions, in definition order.
pub open spec fn flow_collision_issues(nodes: Seq<JsonData>) -> Seq<IssueView> {
    concat_indexed(flow_defs(nodes), def_collision_fn(nodes, flow_defs(nodes)))
}

/// A fan-out flow: defined by some branch and by no node.
pub open spec fn is_fan_flow(nodes: Seq<JsonData>, flow: Seq<char>) -> bool {
    &&& exists|k: int| 0 <= k < flow_defs(nodes).len() && #[trigger] flow_defs(nodes)[k].0 == flow
    &&& id_count(nodes, flow) == 0
}

/// The flow definitions, with the position of the last definition of each flow.
pub struct FlowTable {
    pub defs: Vec<(String, String)>,
    pub last: StringHashMap<usize>,
}

/// The definitions as data.
pub open spec fn defs_view(defs: Seq<(String, String)>) -> Seq<FlowDefinition> {
    defs.map_values(|d: (String, String)| (d.0@, d.1@))
}

impl FlowTable {
    /// The table describes the definitions of `nodes`.
    pub open spec fn describes(&self, nodes: Seq<JsonData>) -> bool {
        &&& defs_view(self.defs@) == flow_defs(nodes)
        &&& forall|flow: Seq<char>| #[trigger] self.last@.contains_key(flow) <==> last_def(flow_defs(nodes), flow) >= 0
        &&& forall|flow: Seq<char>| self.last@.contains_key(flow) ==> #[trigger] self.last@[flow] == last_def(flow_defs(nodes), flow)
    }

    /// The position of the last definition of `flow`.
    pub fn last_definition(&self, flow: &str, nodes: Ghost<Seq<JsonData>>) -> (result: Option<usize>)
        requires
            self.describes(nodes@),
        ensures
            match result {
                Some(k) => last_def(flow_defs(nodes@), flow@) == k,
                None => last_def(flow_defs(nodes@), flow@) < 0,
            },
    {
        match self.last.get(flow) {
            Some(k) => Some(*k),
            None => None,
        }
    }
}

/// A flow has a definition exactly when its last definition exists.
pub proof fn lemma_last_def(defs: Seq<FlowDefinition>, flow: Seq<char>)
    ensures
        -1 <= last_def(defs, flow) < defs.len(),
        last_def(defs, flow) >= 0 <==> exists|k: int| 0 <= k < defs.len() && #[trigger] defs[k].0 == flow,
        last_def(defs, flow) >= 0 ==> defs[last_def(defs, flow)].0 == flow,
        forall|k: int| last_def(defs, flow) < k < defs.len() ==> #[trigger] defs[k].0 != flow,
    decreases defs.len(),
{
    if defs.len() > 0 {
        lemma_last_def(defs.drop_last(), flow);
        if defs.last().0 != flow {
            assert(last_def(defs, flow) == last_def(defs.drop_last(), flow));
            if exists|k: int| 0 <= k < defs.len() && #[trigger] defs[k].0 == flow {
                let k = choose|k: int| 0 <= k < defs.len() && #[trigger] defs[k].0 == flow;
                assert(defs.drop_last()[k].0 == flow);
            }
            assert forall|k: int| last_def(defs, flow) < k < defs.len() implies #[trigger] defs[k].0 != flow by {
                if k < defs.len() - 1 {
                    assert(defs.drop_last()[k] == defs[k]);
                }
            }
        }
    }
}

proof fn lemma_last_def_step(defs: Seq<FlowDefinition>, k: int, flow: Seq<char>)
    requires
        0 <= k < defs.len(),
    ensures
        last_def(defs.take(k + 1), flow) == if defs[k].0 == flow {
            k
        } else {
            last_def(defs.take(k), flow)
        },
{
    assert(defs.take(k + 1).drop_last() =~= defs.take(k));
}

fn push_definition(defs: &mut Vec<(String, String)>, flow: &str, path: String)
    ensures
        defs_view(final(defs)@) == defs_view(old(defs)@).push((flow@, path@)),
{
    defs.push((owned(flow), path));
    assert(defs_view(defs@) =~= defs_view(old(defs)@).push((flow@, path@)));
}

/// Collects the definitions a fan-out node makes.
fn collect_node_defs(node: &JsonValue, index: usize, defs: &mut Vec<(String, String)>)
    ensures
        defs_view(final(defs)@) == defs_view(old(defs)@) + node_defs(index as int, node@),
{
    let ghost start = defs_view(defs@);
    let is_fan_out = match text_of(node, "type") {
        Some(t) => text_eq(t, "fan-out"),
        None => false,
    };
    if !is_fan_out {
        assert(defs_view(defs@) =~= start + node_defs(index as int, node@));
        return;
    }
    let branches = match field_of(node, "branches") {
        Some(b) => match b.array() {
            Some(items) => items,
            None => {
                assert(defs_view(defs@) =~= start + node_defs(index as int, node@));
                return;
            },
        },
        None => {
            assert(defs_view(defs@) =~= start + node_defs(index as int, node@));
            return;
        },
    };
    let ghost bd = array_data(*branches);
    let base = concat(node_path_string(index).as_str(), "/branches");
    let mut k: usize = 0;
    while k < branches.len()
        invariant
            k <= branches.len(),
            bd == array_data(*branches),
            bd.len() == branches.len(),
            base@ == node_path(index as int) + "/branches"@,
            defs_view(defs@) == start + flat_indexed(bd.take(k as int), branch_def(index as int)),
        decreases branches.len() - k,
    {
        proof {
            lemma_flat_indexed_step(bd, k as int, branch_def(index as int));
        }
        assert(bd[k as int] == branches[k as int]@);
        match text_of(&branches[k], "id") {
            Some(flow) => {
                let path = concat(indexed_string(base.as_str(), k).as_str(), "/id");
                push_definition(defs, flow, path);
            },
            None => {},
        }
        assert(defs_view(defs@) =~= start + flat_indexed(bd.take(k + 1), branch_def(index as int)));
        k = k + 1;
    }
    proof {
        lemma_flat_indexed_all(bd, branch_def(index as int));
    }
    assert(defs_view(defs@) =~= start + node_defs(index as int, node@));
}

/// Collects the fan-out flow definitions, reports those that collide, and records the last
/// definition of each flow.
pub fn define_flows(nodes: &Vec<JsonValue>, ids: &IdIndex, issues: &mut Vec<IssueData>) -> (result: FlowTable)
    requires
        ids.describes(array_data(*nodes)),
    ensures
        result.describes(array_data(*nodes)),
        issue_views(final(issues)@) == issue_views(old(issues)@) + flow_collision_issues(array_data(*nodes)),
{
    let ghost nd = array_data(*nodes);
    let mut defs: Vec<(String, String)> = Vec::new();
    let mut i: usize = 0;
    while i < nodes.len()
        invariant
            i <= nodes.len(),
            nd == array_data(*nodes),
            nd.len() == nodes.len(),
            defs_view(defs@) == flat_indexed(nd.take(i as int), node_defs_fn()),
        decreases nodes.len() - i,
    {
        proof {
            lemma_flat_indexed_step(nd, i as int, node_defs_fn());
        }
        assert(nd[i as int] == nodes[i as int]@);
        collect_node_defs(&nodes[i], i, &mut defs);
        assert(defs_view(defs@) =~= flat_indexed(nd.take(i + 1), node_defs_fn()));
        i = i + 1;
    }
    proof {
        lemma_flat_indexed_all(nd, node_defs_fn());
    }
    let ghost dv = flow_defs(nd);
    assert(defs_view(defs@) == dv);
    let ghost start = issue_views(issues@);
    let mut last: StringHashMap<usize> = StringHashMap::new();
    let mut k: usize = 0;
    while k < defs.len()
        invariant
            k <= defs.len(),
            dv == flow_defs(nd),
            defs_view(defs@) == dv,
            dv.len() == defs.len(),
            ids.describes(nd),
            nd == array_data(*nodes),
            forall|flow: Seq<char>| #[trigger] last@.contains_key(flow) <==> last_def(dv.take(k as int), flow) >= 0,
            forall|flow: Seq<char>| last@.contains_key(flow) ==> #[trigger] last@[flow] == last_def(dv.take(k as int), flow),
            issue_views(issues@) == start + concat_indexed(dv.take(k as int), def_collision_fn(nd, dv)),
        decreases defs.len() - k,
    {
        proof {
            lemma_concat_indexed_step(dv, k as int, def_collision_fn(nd, dv));
            assert forall|flow: Seq<char>| #![trigger last_def(dv.take(k + 1), flow)] true implies last_def(dv.take(k + 1), flow)
                == if dv[k as int].0 == flow { k as int } else { last_def(dv.take(k as int), flow) } by {
                lemma_last_def_step(dv, k as int, flow);
            }
            lemma_last_def(dv.take(k as int), dv[k as int].0);
            if defined_before(dv, k as int, dv[k as int].0) {
                let j = choose|j: int| 0 <= j < k && #[trigger] dv[j].0 == dv[k as int].0;
                assert(dv.take(k as int)[j].0 == dv[k as int].0);
            }
            if last_def(dv.take(k as int), dv[k as int].0) >= 0 {
                let j = last_def(dv.take(k as int), dv[k as int].0);
                assert(dv[j].0 == dv.take(k as int)[j].0);
            }
        }
        let flow = defs[k].0.as_str();
        assert(flow@ == dv[k as int].0);
        let seen = last.contains_key(flow);
        if ids.defined(flow, Ghost(nd)) || seen {
            push_issue(issues, "ID_COLLISION", defs[k].1.clone(), "flow identifier collides in the graph namespace");
        }
        last.insert(owned(flow), k);
        assert(issue_views(issues@) =~= start + concat_indexed(dv.take(k + 1), def_collision_fn(nd, dv)));
        k = k + 1;
    }
    proof {
        lemma_concat_indexed_all(dv, def_collision_fn(nd, dv));
        assert(dv.take(defs.len() as int) =~= dv);
    }
    FlowTable { defs, last }
}

} // verus!
