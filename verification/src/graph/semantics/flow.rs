//! Convergence inputs: collisions, reused sources, links between sources and convergence
//! points, and fan-out flows consumed other than once.
use vstd::prelude::*;
use vstd::hash_map::StringHashMap;

use super::{flat_indexed, lemma_flat_indexed_all, lemma_flat_indexed_step};
use super::definitions::{defs_view, flow_defs, last_def, lemma_last_def, FlowTable};
use super::ids::{field_of, id_count, id_target, node_field, node_text, text_of, IdIndex};
use crate::diagnostics::{concat_indexed, issue_views, lemma_concat_indexed_all, lemma_concat_indexed_step,
    push_issue, IssueData, IssueView};
use crate::json_pointer::{join_pointer, joined};
use crate::json_value::{array_data, data_text, object_data, JsonData, JsonValue};
use crate::text::{concat, node_path, node_path_string, owned, text_eq};

verus! {

/// A convergence input: the node index, the flow identifier and the source value.
pub type Input = (int, Seq<char>, JsonData);

/// A fan-out flow: some branch defines it and no node does.
pub open spec fn fan_flow(nodes: Seq<JsonData>, flow: Seq<char>) -> bool {
    last_def(flow_defs(nodes), flow) >= 0 && id_count(nodes, flow) == 0
}

/// The input members of node `i` when it is a convergence node with an `inputs` object.
pub open spec fn converge_inputs(node: JsonData) -> Option<Seq<(Seq<char>, JsonData)>> {
    if node_text(node, "type"@) == Some("converge"@) {
        match node_field(node, "inputs"@) {
            Some(JsonData::Object(inputs)) => Some(inputs),
            _ => None,
        }
    } else {
        None
    }
}

pub open spec fn input_of(i: int) -> spec_fn(int, (Seq<char>, JsonData)) -> Seq<Input> {
    |k: int, m: (Seq<char>, JsonData)| seq![(i, m.0, m.1)]
}

/// The inputs of node `i`, in member order.
pub open spec fn node_inputs(i: int, node: JsonData) -> Seq<Input> {
    match converge_inputs(node) {
        Some(inputs) => flat_indexed(inputs, input_of(i)),
        None => Seq::empty(),
    }
}

pub open spec fn node_inputs_fn() -> spec_fn(int, JsonData) -> Seq<Input> {
    |i: int, node: JsonData| node_inputs(i, node)
}

/// Every convergence input of the graph, in node and member order.
pub open spec fn all_inputs(nodes: Seq<JsonData>) -> Seq<Input> {
    flat_indexed(nodes, node_inputs_fn())
}

/// An input among `inputs` names the flow.
pub open spec fn has_flow(inputs: Seq<Input>, flow: Seq<char>) -> bool {
    exists|j: int| 0 <= j < inputs.len() && #[trigger] inputs[j].1 == flow
}

/// An input among `inputs` has the source text.
pub open spec fn has_source(inputs: Seq<Input>, source: Seq<char>) -> bool {
    exists|j: int| 0 <= j < inputs.len() && #[trigger] inputs[j].2 == JsonData::Text(source)
}

/// The identifier text of a convergence node, or the empty text.
pub open spec fn converge_name(node: JsonData) -> Seq<char> {
    match node_text(node, "id"@) {
        Some(t) => t,
        None => Seq::empty(),
    }
}

/// `/nodes/{i}/inputs/{flow}`.
pub open spec fn input_path(i: int, flow: Seq<char>) -> Seq<char> {
    joined(node_path(i) + "/inputs"@, flow)
}

/// The issues of the input at position `k` of node `i`, given the inputs before it.
pub open spec fn input_issues(nodes: Seq<JsonData>, i: int, input: Input, earlier: Seq<Input>, here: Seq<Input>) -> Seq<IssueView> {
    let flow = input.1;
    let path = input_path(i, flow);
    let collision = if !fan_flow(nodes, flow) && (id_target(nodes, flow) is Some || has_flow(earlier + here, flow)) {
        seq![(path, "ID_COLLISION"@, "convergence flow identifier collides in the graph namespace"@)]
    } else {
        Seq::empty()
    };
    collision + match input.2 {
        JsonData::Text(source) => (if has_source(here, source) {
            seq![(path, "FLOW_REUSED"@, "one source is supplied more than once to convergence"@)]
        } else {
            Seq::empty()
        }) + (if has_source(earlier + here, source) {
            seq![(path, "FLOW_REUSED"@, "one source feeds multiple convergence points"@)]
        } else {
            Seq::empty()
        }) + match id_target(nodes, source) {
            Some(s) => if node_text(nodes[s], "next"@) != Some(converge_name(nodes[i])) {
                seq![(path, "CONVERGE_LINK"@, "convergence input and source next do not agree"@)]
            } else {
                Seq::empty()
            },
            None => Seq::empty(),
        },
        _ => Seq::empty(),
    }
}

/// The inputs of node `i` name a source with the text.
pub open spec fn inputs_name(inputs: Seq<(Seq<char>, JsonData)>, source: Seq<char>) -> bool {
    exists|j: int| 0 <= j < inputs.len() && #[trigger] inputs[j].1 == JsonData::Text(source)
}

/// A node whose `next` is the convergence point but which no input names.
pub open spec fn reverse_fn(name: Seq<char>, inputs: Seq<(Seq<char>, JsonData)>) -> spec_fn(int, JsonData) -> Seq<IssueView> {
    |s: int, source: JsonData| if source is Object && node_text(source, "next"@) == Some(name) && !inputs_name(
        inputs,
        match node_text(source, "id"@) {
            Some(t) => t,
            None => Seq::empty(),
        },
    ) {
        seq![(node_path(s) + "/next"@, "CONVERGE_LINK"@, "source points to convergence but is absent from inputs"@)]
    } else {
        Seq::empty()
    }
}

pub open spec fn input_fn(nodes: Seq<JsonData>, i: int, inputs: Seq<(Seq<char>, JsonData)>) -> spec_fn(int, (Seq<char>, JsonData)) -> Seq<IssueView> {
    |k: int, m: (Seq<char>, JsonData)| input_issues(
        nodes,
        i,
        (i, m.0, m.1),
        all_inputs(nodes.take(i)),
        flat_indexed(inputs.take(k), input_of(i)),
    )
}

/// The issues of convergence node `i`: those of each input, then its reverse links.
pub open spec fn converge_issues(nodes: Seq<JsonData>, i: int, node: JsonData) -> Seq<IssueView> {
    match converge_inputs(node) {
        Some(inputs) => concat_indexed(inputs, input_fn(nodes, i, inputs)) + concat_indexed(
            nodes,
            reverse_fn(converge_name(node), inputs),
        ),
        None => Seq::empty(),
    }
}

pub open spec fn converge_fn(nodes: Seq<JsonData>) -> spec_fn(int, JsonData) -> Seq<IssueView> {
    |i: int, node: JsonData| converge_issues(nodes, i, node)
}

/// A fan-out flow that no input consumes, reported at its last definition.
pub open spec fn unconsumed_fn(nodes: Seq<JsonData>) -> spec_fn(int, (Seq<char>, Seq<char>)) -> Seq<IssueView> {
    |k: int, d: (Seq<char>, Seq<char>)| if last_def(flow_defs(nodes), d.0) == k && id_count(nodes, d.0) == 0
        && !has_flow(all_inputs(nodes), d.0) {
        seq![(d.1, "FLOW_UNCONSUMED"@, "fan-out flow is never consumed by convergence"@)]
    } else {
        Seq::empty()
    }
}

/// An input that consumes a fan-out flow an earlier input already consumed.
pub open spec fn reused_fn(nodes: Seq<JsonData>) -> spec_fn(int, Input) -> Seq<IssueView> {
    |g: int, p: Input| if fan_flow(nodes, p.1) && has_flow(all_inputs(nodes).take(g), p.1) {
        seq![(input_path(p.0, p.1), "FLOW_REUSED"@, "fan-out flow is consumed more than once"@)]
    } else {
        Seq::empty()
    }
}

/// Every flow issue: per convergence node, then unconsumed fan-out flows, then fan-out flows
/// consumed again.
pub open spec fn flow_issues(nodes: Seq<JsonData>) -> Seq<IssueView> {
    concat_indexed(nodes, converge_fn(nodes)) + concat_indexed(flow_defs(nodes), unconsumed_fn(nodes))
        + concat_indexed(all_inputs(nodes), reused_fn(nodes))
}

/// Inputs as data.
pub open spec fn inputs_view(v: Seq<(usize, &str, &JsonValue)>) -> Seq<Input> {
    v.map_values(|e: (usize, &str, &JsonValue)| (e.0 as int, e.1@, e.2@))
}

/// Whether a flow is a fan-out flow.
fn is_fan_flow(flow: &str, ids: &IdIndex, table: &FlowTable, nodes: Ghost<Seq<JsonData>>) -> (result: bool)
    requires
        ids.describes(nodes@),
        table.describes(nodes@),
    ensures
        result == fan_flow(nodes@, flow@),
{
    table.last_definition(flow, nodes).is_some() && !ids.defined(flow, nodes)
}

/// The inputs of a convergence node.
fn inputs_of(node: &JsonValue) -> (result: Option<&Vec<(String, JsonValue)>>)
    ensures
        match result {
            Some(m) => converge_inputs(node@) == Some(object_data(*m)),
            None => converge_inputs(node@) is None,
        },
{
    let is_converge = match text_of(node, "type") {
        Some(t) => text_eq(t, "converge"),
        None => false,
    };
    if !is_converge {
        return None;
    }
    match field_of(node, "inputs") {
        Some(v) => v.object(),
        None => None,
    }
}

/// The maps that describe the inputs seen so far.
pub open spec fn seen_flows(flows: Map<Seq<char>, usize>, prior: Seq<Input>) -> bool {
    forall|f: Seq<char>| #[trigger] flows.contains_key(f) <==> has_flow(prior, f)
}

pub open spec fn seen_sources(sources: Map<Seq<char>, usize>, prior: Seq<Input>) -> bool {
    forall|t: Seq<char>| #[trigger] sources.contains_key(t) <==> has_source(prior, t)
}

proof fn lemma_seen_push(flows: Map<Seq<char>, usize>, prior: Seq<Input>, input: Input)
    requires
        seen_flows(flows, prior),
    ensures
        seen_flows(flows.insert(input.1, 0), prior.push(input)),
{
    assert forall|f: Seq<char>| #[trigger] flows.insert(input.1, 0).contains_key(f) <==> has_flow(prior.push(input), f) by {
        if has_flow(prior.push(input), f) && f != input.1 {
            let j = choose|j: int| 0 <= j < prior.push(input).len() && #[trigger] prior.push(input)[j].1 == f;
            assert(prior[j].1 == f);
        }
        if has_flow(prior, f) {
            let j = choose|j: int| 0 <= j < prior.len() && #[trigger] prior[j].1 == f;
            assert(prior.push(input)[j].1 == f);
        }
        if f == input.1 {
            assert(prior.push(input)[prior.len() as int].1 == f);
        }
    }
}

proof fn lemma_sources_push(sources: Map<Seq<char>, usize>, prior: Seq<Input>, input: Input)
    requires
        seen_sources(sources, prior),
    ensures
        input.2 is Text ==> seen_sources(sources.insert(input.2->Text_0, 0), prior.push(input)),
        !(input.2 is Text) ==> seen_sources(sources, prior.push(input)),
{
    assert forall|t: Seq<char>| has_source(prior.push(input), t) <==> has_source(prior, t) || input.2 == JsonData::Text(t) by {
        if has_source(prior.push(input), t) && input.2 != JsonData::Text(t) {
            let j = choose|j: int| 0 <= j < prior.push(input).len() && #[trigger] prior.push(input)[j].2 == JsonData::Text(t);
            assert(prior[j].2 == JsonData::Text(t));
        }
        if has_source(prior, t) {
            let j = choose|j: int| 0 <= j < prior.len() && #[trigger] prior[j].2 == JsonData::Text(t);
            assert(prior.push(input)[j].2 == JsonData::Text(t));
        }
        if input.2 == JsonData::Text(t) {
            assert(prior.push(input)[prior.len() as int].2 == JsonData::Text(t));
        }
    }
}

/// Whether some input names a source with the text.
fn names_source(inputs: &Vec<(String, JsonValue)>, source: &str) -> (result: bool)
    ensures
        result == inputs_name(object_data(*inputs), source@),
{
    let ghost md = object_data(*inputs);
    let mut k: usize = 0;
    while k < inputs.len()
        invariant
            k <= inputs.len(),
            md == object_data(*inputs),
            md.len() == inputs.len(),
            forall|j: int| 0 <= j < k ==> #[trigger] md[j].1 != JsonData::Text(source@),
        decreases inputs.len() - k,
    {
        assert(md[k as int] == (inputs[k as int].0@, inputs[k as int].1@));
        match inputs[k].1.string() {
            Some(t) => {
                if text_eq(t, source) {
                    assert(md[k as int].1 == JsonData::Text(source@));
                    return true;
                }
            },
            None => {},
        }
        k = k + 1;
    }
    false
}

/// Reports the nodes whose `next` is the convergence point but which no input names.
fn check_reverse_links(nodes: &Vec<JsonValue>, name: &str, inputs: &Vec<(String, JsonValue)>, issues: &mut Vec<IssueData>)
    ensures
        issue_views(final(issues)@) == issue_views(old(issues)@) + concat_indexed(
            array_data(*nodes),
            reverse_fn(name@, object_data(*inputs)),
        ),
{
    let ghost nd = array_data(*nodes);
    let ghost f = reverse_fn(name@, object_data(*inputs));
    let ghost start = issue_views(issues@);
    let mut s: usize = 0;
    while s < nodes.len()
        invariant
            s <= nodes.len(),
            nd == array_data(*nodes),
            nd.len() == nodes.len(),
            f == reverse_fn(name@, object_data(*inputs)),
            issue_views(issues@) == start + concat_indexed(nd.take(s as int), f),
        decreases nodes.len() - s,
    {
        proof {
            lemma_concat_indexed_step(nd, s as int, f);
        }
        assert(nd[s as int] == nodes[s as int]@);
        if nodes[s].object().is_some() {
            let points_here = match text_of(&nodes[s], "next") {
                Some(t) => text_eq(t, name),
                None => false,
            };
            if points_here {
                let sid = match text_of(&nodes[s], "id") {
                    Some(t) => t,
                    None => "",
                };
                proof {
                    reveal_strlit("");
                }
                assert(sid@ == match node_text(nd[s as int], "id"@) {
                    Some(t) => t,
                    None => Seq::<char>::empty(),
                });
                if !names_source(inputs, sid) {
                    push_issue(issues, "CONVERGE_LINK", concat(node_path_string(s).as_str(), "/next"),
                        "source points to convergence but is absent from inputs");
                }
            }
        }
        assert(issue_views(issues@) =~= start + concat_indexed(nd.take(s + 1), f));
        s = s + 1;
    }
    proof {
        lemma_concat_indexed_all(nd, f);
    }
}

/// Checks one convergence input against the inputs before it.
fn check_input(
    nodes: &Vec<JsonValue>,
    i: usize,
    flow: &str,
    source: &JsonValue,
    name: &str,
    ids: &IdIndex,
    table: &FlowTable,
    flows: &mut StringHashMap<usize>,
    sources: &mut StringHashMap<usize>,
    here_sources: &mut StringHashMap<usize>,
    earlier: Ghost<Seq<Input>>,
    here: Ghost<Seq<Input>>,
    issues: &mut Vec<IssueData>,
)
    requires
        ids.describes(array_data(*nodes)),
        table.describes(array_data(*nodes)),
        i < nodes.len(),
        name@ == converge_name(array_data(*nodes)[i as int]),
        seen_flows(old(flows)@, earlier@ + here@),
        seen_sources(old(sources)@, earlier@ + here@),
        seen_sources(old(here_sources)@, here@),
    ensures
        issue_views(final(issues)@) == issue_views(old(issues)@) + input_issues(
            array_data(*nodes),
            i as int,
            (i as int, flow@, source@),
            earlier@,
            here@,
        ),
        seen_flows(final(flows)@, (earlier@ + here@).push((i as int, flow@, source@))),
        seen_sources(final(sources)@, (earlier@ + here@).push((i as int, flow@, source@))),
        seen_sources(final(here_sources)@, here@.push((i as int, flow@, source@))),
{
    let ghost nd = array_data(*nodes);
    let ghost input: Input = (i as int, flow@, source@);
    let ghost start = issue_views(issues@);
    let base = concat(node_path_string(i).as_str(), "/inputs");
    let path = join_pointer(base.as_str(), flow);
    assert(path@ == input_path(i as int, flow@));
    if !is_fan_flow(flow, ids, table, Ghost(nd)) && (ids.target(flow, Ghost(nd)).is_some() || flows.contains_key(flow)) {
        push_issue(issues, "ID_COLLISION", path.clone(), "convergence flow identifier collides in the graph namespace");
    }
    let ghost mid = issue_views(issues@);
    proof {
        lemma_seen_push(flows@, earlier@ + here@, input);
        lemma_sources_push(sources@, earlier@ + here@, input);
        lemma_sources_push(here_sources@, here@, input);
    }
    flows.insert(owned(flow), 0);
    match source.string() {
        Some(sid) => {
            if here_sources.contains_key(sid) {
                push_issue(issues, "FLOW_REUSED", path.clone(), "one source is supplied more than once to convergence");
            }
            here_sources.insert(owned(sid), 0);
            if sources.contains_key(sid) {
                push_issue(issues, "FLOW_REUSED", path.clone(), "one source feeds multiple convergence points");
            }
            sources.insert(owned(sid), 0);
            match ids.target(sid, Ghost(nd)) {
                Some(si) => {
                    proof {
                        super::ids::lemma_first_index(nd, sid@);
                    }
                    let agrees = match text_of(&nodes[si], "next") {
                        Some(t) => text_eq(t, name),
                        None => false,
                    };
                    assert(nd[si as int] == nodes[si as int]@);
                    if !agrees {
                        push_issue(issues, "CONVERGE_LINK", path, "convergence input and source next do not agree");
                    }
                },
                None => {},
            }
        },
        None => {},
    }
    assert(issue_views(issues@) =~= start + input_issues(nd, i as int, input, earlier@, here@));
}

/// Checks the inputs and reverse links of one convergence node.
fn check_converge<'a>(
    nodes: &'a Vec<JsonValue>,
    i: usize,
    ids: &IdIndex,
    table: &FlowTable,
    flows: &mut StringHashMap<usize>,
    sources: &mut StringHashMap<usize>,
    all: &mut Vec<(usize, &'a str, &'a JsonValue)>,
    issues: &mut Vec<IssueData>,
)
    requires
        ids.describes(array_data(*nodes)),
        table.describes(array_data(*nodes)),
        i < nodes.len(),
        inputs_view(old(all)@) == all_inputs(array_data(*nodes).take(i as int)),
        seen_flows(old(flows)@, inputs_view(old(all)@)),
        seen_sources(old(sources)@, inputs_view(old(all)@)),
    ensures
        inputs_view(final(all)@) == all_inputs(array_data(*nodes).take(i + 1)),
        seen_flows(final(flows)@, inputs_view(final(all)@)),
        seen_sources(final(sources)@, inputs_view(final(all)@)),
        issue_views(final(issues)@) == issue_views(old(issues)@) + converge_issues(array_data(*nodes), i as int, array_data(*nodes)[i as int]),
{
    let ghost nd = array_data(*nodes);
    let ghost start = issue_views(issues@);
    let ghost earlier = all_inputs(nd.take(i as int));
    proof {
        lemma_flat_indexed_step(nd, i as int, node_inputs_fn());
    }
    assert(nd[i as int] == nodes[i as int]@);
    let inputs = match inputs_of(&nodes[i]) {
        Some(m) => m,
        None => {
            assert(inputs_view(all@) =~= all_inputs(nd.take(i + 1)));
            assert(issue_views(issues@) =~= start + converge_issues(nd, i as int, nd[i as int]));
            return;
        },
    };
    let ghost md = object_data(*inputs);
    let name = match text_of(&nodes[i], "id") {
        Some(t) => t,
        None => "",
    };
    proof {
        reveal_strlit("");
    }
    assert(name@ == converge_name(nd[i as int]));
    let mut here_sources: StringHashMap<usize> = StringHashMap::new();
    let mut k: usize = 0;
    while k < inputs.len()
        invariant
            k <= inputs.len(),
            nd == array_data(*nodes),
            md == object_data(*inputs),
            md.len() == inputs.len(),
            i < nodes.len(),
            converge_inputs(nd[i as int]) == Some(md),
            earlier == all_inputs(nd.take(i as int)),
            name@ == converge_name(nd[i as int]),
            ids.describes(nd),
            table.describes(nd),
            inputs_view(all@) == earlier + flat_indexed(md.take(k as int), input_of(i as int)),
            seen_flows(flows@, inputs_view(all@)),
            seen_sources(sources@, inputs_view(all@)),
            seen_sources(here_sources@, flat_indexed(md.take(k as int), input_of(i as int))),
            issue_views(issues@) == start + concat_indexed(md.take(k as int), input_fn(nd, i as int, md)),
        decreases inputs.len() - k,
    {
        proof {
            lemma_flat_indexed_step(md, k as int, input_of(i as int));
            lemma_concat_indexed_step(md, k as int, input_fn(nd, i as int, md));
        }
        let ghost here = flat_indexed(md.take(k as int), input_of(i as int));
        assert(md[k as int] == (inputs[k as int].0@, inputs[k as int].1@));
        check_input(nodes, i, inputs[k].0.as_str(), &inputs[k].1, name, ids, table, flows, sources, &mut here_sources,
            Ghost(earlier), Ghost(here), issues);
        let ghost before = all@;
        all.push((i, inputs[k].0.as_str(), &inputs[k].1));
        assert(inputs_view(all@) =~= inputs_view(before).push((i as int, inputs[k as int].0@, inputs[k as int].1@)));
        assert((earlier + here).push((i as int, inputs[k as int].0@, inputs[k as int].1@)) =~= earlier + flat_indexed(md.take(k + 1), input_of(i as int)));
        assert(here.push((i as int, inputs[k as int].0@, inputs[k as int].1@)) =~= flat_indexed(md.take(k + 1), input_of(i as int)));
        assert(issue_views(issues@) =~= start + concat_indexed(md.take(k + 1), input_fn(nd, i as int, md)));
        k = k + 1;
    }
    proof {
        lemma_flat_indexed_all(md, input_of(i as int));
        lemma_concat_indexed_all(md, input_fn(nd, i as int, md));
    }
    assert(inputs_view(all@) =~= all_inputs(nd.take(i + 1)));
    check_reverse_links(nodes, name, inputs, issues);
    assert(issue_views(issues@) =~= start + converge_issues(nd, i as int, nd[i as int]));
}

/// Reports every flow issue of the graph, when `enabled`.
pub fn validate_flows(nodes: &Vec<JsonValue>, ids: &IdIndex, table: &FlowTable, enabled: bool, issues: &mut Vec<IssueData>)
    requires
        ids.describes(array_data(*nodes)),
        table.describes(array_data(*nodes)),
    ensures
        issue_views(final(issues)@) == issue_views(old(issues)@) + if enabled {
            flow_issues(array_data(*nodes))
        } else {
            Seq::empty()
        },
{
    let ghost nd = array_data(*nodes);
    let ghost start = issue_views(issues@);
    if !enabled {
        assert(issue_views(issues@) =~= start + Seq::<IssueView>::empty());
        return;
    }
    let mut flows: StringHashMap<usize> = StringHashMap::new();
    let mut sources: StringHashMap<usize> = StringHashMap::new();
    let mut all: Vec<(usize, &str, &JsonValue)> = Vec::new();
    let mut i: usize = 0;
    assert(inputs_view(all@) =~= all_inputs(nd.take(0)));
    while i < nodes.len()
        invariant
            i <= nodes.len(),
            nd == array_data(*nodes),
            nd.len() == nodes.len(),
            ids.describes(nd),
            table.describes(nd),
            inputs_view(all@) == all_inputs(nd.take(i as int)),
            seen_flows(flows@, inputs_view(all@)),
            seen_sources(sources@, inputs_view(all@)),
            issue_views(issues@) == start + concat_indexed(nd.take(i as int), converge_fn(nd)),
        decreases nodes.len() - i,
    {
        proof {
            lemma_concat_indexed_step(nd, i as int, converge_fn(nd));
        }
        check_converge(nodes, i, ids, table, &mut flows, &mut sources, &mut all, issues);
        assert(issue_views(issues@) =~= start + concat_indexed(nd.take(i + 1), converge_fn(nd)));
        i = i + 1;
    }
    proof {
        lemma_concat_indexed_all(nd, converge_fn(nd));
        lemma_flat_indexed_all(nd, node_inputs_fn());
    }
    let ghost everything = all_inputs(nd);
    assert(inputs_view(all@) == everything);
    let ghost after_nodes = issue_views(issues@);
    let ghost dv = flow_defs(nd);
    let mut k: usize = 0;
    while k < table.defs.len()
        invariant
            k <= table.defs.len(),
            nd == array_data(*nodes),
            ids.describes(nd),
            table.describes(nd),
            dv == flow_defs(nd),
            defs_view(table.defs@) == dv,
            dv.len() == table.defs.len(),
            seen_flows(flows@, everything),
            everything == all_inputs(nd),
            issue_views(issues@) == after_nodes + concat_indexed(dv.take(k as int), unconsumed_fn(nd)),
        decreases table.defs.len() - k,
    {
        proof {
            lemma_concat_indexed_step(dv, k as int, unconsumed_fn(nd));
        }
        let flow = table.defs[k].0.as_str();
        assert(dv[k as int] == (table.defs[k as int].0@, table.defs[k as int].1@));
        let is_last = match table.last_definition(flow, Ghost(nd)) {
            Some(j) => j == k,
            None => false,
        };
        if is_last && !ids.defined(flow, Ghost(nd)) && !flows.contains_key(flow) {
            push_issue(issues, "FLOW_UNCONSUMED", table.defs[k].1.clone(), "fan-out flow is never consumed by convergence");
        }
        assert(issue_views(issues@) =~= after_nodes + concat_indexed(dv.take(k + 1), unconsumed_fn(nd)));
        k = k + 1;
    }
    proof {
        lemma_concat_indexed_all(dv, unconsumed_fn(nd));
    }
    let ghost after_defs = issue_views(issues@);
    let mut consumed: StringHashMap<usize> = StringHashMap::new();
    let mut g: usize = 0;
    while g < all.len()
        invariant
            g <= all.len(),
            nd == array_data(*nodes),
            ids.describes(nd),
            table.describes(nd),
            inputs_view(all@) == everything,
            everything == all_inputs(nd),
            everything.len() == all.len(),
            seen_flows(consumed@, everything.take(g as int)),
            issue_views(issues@) == after_defs + concat_indexed(everything.take(g as int), reused_fn(nd)),
        decreases all.len() - g,
    {
        proof {
            lemma_concat_indexed_step(everything, g as int, reused_fn(nd));
            lemma_seen_push(consumed@, everything.take(g as int), everything[g as int]);
            assert(everything.take(g as int).push(everything[g as int]) =~= everything.take(g + 1));
        }
        let (node_index, flow, _source) = all[g];
        assert(everything[g as int].0 == node_index && everything[g as int].1 == flow@);
        if is_fan_flow(flow, ids, table, Ghost(nd)) && consumed.contains_key(flow) {
            let base = concat(node_path_string(node_index).as_str(), "/inputs");
            push_issue(issues, "FLOW_REUSED", join_pointer(base.as_str(), flow), "fan-out flow is consumed more than once");
        }
        consumed.insert(owned(flow), 0);
        assert(issue_views(issues@) =~= after_defs + concat_indexed(everything.take(g + 1), reused_fn(nd)));
        g = g + 1;
    }
    proof {
        lemma_concat_indexed_all(everything, reused_fn(nd));
    }
    assert(issue_views(issues@) =~= start + flow_issues(nd));
}

} // verus!
