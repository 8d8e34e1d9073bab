//! The execution state machine: tokens move through the graph one step at a time; tasks wait
//! for their results under tickets; randomised gates wait for the caller to pick a route.
use vstd::prelude::*;
use std::collections::{HashMap, VecDeque};
use std::sync::Arc;

use super::convergence::{all_arrived, arrivals_after, arrived_value, input_from, joined_members, lemma_joined_wf, slots_wf, texts, Convergences};
use super::error::{gate_view, ExecutionFailure, GateSelectionContext, GateView, RoutingFailure};
use super::gate::{has_otherwise, select_case};
use super::mapping::{apply_mappings, failure_matches, map_fold};
use super::gate::{case_operator, first_accepting};
use crate::graph::model::{CompiledGraph, GateCase, NodeKind};
use crate::json_parsing::pointer::JsonPointer;
use crate::json_value::{data_wf, pointer_path, resolve, JsonData, JsonValue};
use crate::text::owned;

verus! {

broadcast use vstd::std_specs::hash::group_hash_axioms;

/// A task handed to the caller.
#[derive(Debug)]
pub struct TaskRequest {
    pub ticket: u64,
    pub node: usize,
    pub task_name: String,
    pub payload: JsonValue,
}

/// A randomised gate waiting for the caller to pick one of its routes.
#[derive(Debug)]
pub struct RouteChoice {
    pub node: usize,
    pub routes: usize,
}

/// What a run of steps produced: the tasks handed out and, once reached, the output.
#[derive(Debug)]
pub struct Progress {
    pub requests: Vec<TaskRequest>,
    pub output: Option<JsonValue>,
}

/// What a pending ticket stands for.
#[derive(Debug)]
pub struct PendingTaskContext {
    pub node: usize,
    pub task_name: String,
}

/// The outcome of one step.
#[derive(Debug)]
pub enum Step {
    /// No token is waiting.
    Idle,
    /// One token was processed.
    Processed,
    /// A randomised gate waits for the caller to pick a route.
    Choice(RouteChoice),
}

struct Token {
    node: usize,
    arriving_from: Option<usize>,
    value: JsonValue,
    flows: Vec<String>,
    gate: Option<GateSelectionContext>,
}

struct PendingTask {
    node: usize,
    task_name: String,
    next: Option<usize>,
    flows: Vec<String>,
}

/// The nodes a node can pass a token to.
pub open spec fn successors(kind: NodeKind) -> Set<usize> {
    match kind {
        NodeKind::Task { next, .. } => if next is Some { set![next->0] } else { Set::empty() },
        NodeKind::MapSchema { next, .. } => if next is Some { set![next->0] } else { Set::empty() },
        NodeKind::Converge { next, .. } => if next is Some { set![next->0] } else { Set::empty() },
        NodeKind::Deterministic { cases, .. } => Set::new(|t: usize| exists|k: int| 0 <= k < cases.len() && #[trigger] cases[k].target_spec() == t),
        NodeKind::Randomised { routes } => Set::new(|t: usize| exists|k: int| 0 <= k < routes.len() && #[trigger] routes[k].target == t),
        NodeKind::FanOut { branches } => Set::new(|t: usize| exists|k: int| 0 <= k < branches.len() && #[trigger] branches[k].target == t),
        NodeKind::Raise { .. } => Set::empty(),
    }
}

/// A convergence node lists the node among its input sources (other nodes pass anything).
pub open spec fn accepts_from(kind: NodeKind, source: usize) -> bool {
    match kind {
        NodeKind::Converge { inputs, .. } => input_from(inputs@, source, 0) is Some,
        _ => true,
    }
}

/// The node has its ordinary `next` unless it is the output.
pub open spec fn continues(g: CompiledGraph, i: int) -> bool {
    match g.nodes[i].kind {
        NodeKind::Task { next, .. } => i != g.output ==> next is Some,
        NodeKind::MapSchema { next, .. } => i != g.output ==> next is Some,
        NodeKind::Converge { next, .. } => i != g.output ==> next is Some,
        _ => true,
    }
}

/// Mapping targets name a member, and none lies inside an earlier one's value.
pub open spec fn targets_nest_safely(kind: NodeKind) -> bool {
    match kind {
        NodeKind::MapSchema { mappings, .. } => forall|k: int| 0 <= k < mappings.len() ==> {
            &&& (#[trigger] mappings[k]).target.keys().len() >= 1
            &&& forall|j: int| 0 <= j < k ==> !(#[trigger] mappings[j]).target.keys().is_prefix_of(mappings[k].target.keys())
                || mappings[j].target.keys() == mappings[k].target.keys()
        },
        _ => true,
    }
}

/// A graph the execution can run without stopping unexpectedly: gates have an `otherwise`
/// and randomised gates a route; nodes other than the output continue; mapping targets do
/// not nest in earlier values; convergence nodes are entered only from their sources.
pub open spec fn runnable(g: CompiledGraph) -> bool {
    &&& g.wf()
    &&& !(g.nodes[g.entry as int].kind is Converge)
    &&& forall|i: int| 0 <= i < g.nodes.len() ==> {
        &&& continues(g, i)
        &&& targets_nest_safely(#[trigger] g.nodes[i].kind)
        &&& match g.nodes[i].kind {
            NodeKind::Deterministic { cases, .. } => has_otherwise(cases@),
            NodeKind::Randomised { routes } => routes.len() >= 1,
            _ => true,
        }
        &&& forall|t: usize| #[trigger] successors(g.nodes[i].kind).contains(t) ==> accepts_from(g.nodes[t as int].kind, i as usize)
    }
}

/// A token that can be processed: at a node, with a well-formed value, and at a convergence
/// node only from one of its sources.
pub open spec fn token_ok(g: CompiledGraph, node: usize, from: Option<usize>, value: JsonData) -> bool {
    &&& node < g.nodes.len()
    &&& data_wf(value)
    &&& (g.nodes[node as int].kind is Converge ==> from is Some && accepts_from(g.nodes[node as int].kind, from->0))
}

/// An execution of a compiled graph.
pub struct Execution {
    graph: Arc<CompiledGraph>,
    queue: VecDeque<Token>,
    pending: HashMap<u64, PendingTask>,
    convergences: Convergences,
    next_ticket: u64,
    output: Option<JsonValue>,
    started: bool,
    choosing: Option<Token>,
}

impl Execution {
    /// The tasks waiting for results: node and task name by ticket.
    pub closed spec fn pending_view(&self) -> Map<u64, (usize, Seq<char>)> {
        self.pending@.map_values(|p: PendingTask| (p.node, p.task_name@))
    }

    /// The output, once reached.
    pub closed spec fn output_view(&self) -> Option<JsonData> {
        match self.output {
            Some(v) => Some(v@),
            None => None,
        }
    }

    pub closed spec fn started_view(&self) -> bool {
        self.started
    }

    /// Another ticket can still be handed out: the ticket counter has not reached its limit.
    pub closed spec fn ticket_available(&self) -> bool {
        self.next_ticket < u64::MAX
    }

    /// Whether another ticket can still be handed out.
    pub fn tickets_left(&self) -> (result: bool)
        ensures
            result == self.ticket_available(),
    {
        self.next_ticket < u64::MAX
    }

    /// The value of the token held at a randomised gate.
    pub closed spec fn held_value(&self) -> JsonData {
        match self.choosing {
            Some(t) => t.value@,
            None => JsonData::Null,
        }
    }

    pub closed spec fn choosing_view(&self) -> Option<usize> {
        match self.choosing {
            Some(t) => Some(t.node),
            None => None,
        }
    }

    /// The number of tokens waiting to be processed.
    pub closed spec fn waiting(&self) -> nat {
        self.queue@.len()
    }

    /// The node each waiting token comes from, if any.
    pub closed spec fn sources_view(&self) -> Seq<Option<usize>> {
        self.queue@.map_values(|t: Token| t.arriving_from)
    }

    /// The open flows of each waiting token.
    pub closed spec fn flows_view(&self) -> Seq<Seq<Seq<char>>> {
        self.queue@.map_values(|t: Token| texts(t.flows@))
    }

    /// What has arrived at each convergence node still waiting for inputs.
    pub closed spec fn arrivals_view(&self) -> Map<usize, Seq<Option<(JsonData, Seq<Seq<char>>)>>> {
        self.convergences.arrivals()
    }

    /// The waiting tokens, first to be processed first: each one's node and value.
    pub closed spec fn queue_view(&self) -> Seq<(usize, JsonData)> {
        self.queue@.map_values(|t: Token| (t.node, t.value@))
    }

    /// For each waiting token, the context of any gate choice that routed it.
    pub closed spec fn gates_view(&self) -> Seq<Option<GateView>> {
        self.queue@.map_values(|t: Token| gate_view(t.gate))
    }

    pub closed spec fn graph_view(&self) -> CompiledGraph {
        *self.graph
    }

    /// The state is consistent with the graph.
    pub closed spec fn inv(&self) -> bool {
        let g = *self.graph;
        &&& runnable(g)
        &&& forall|k: int| 0 <= k < self.queue@.len() ==> token_ok(
            g,
            (#[trigger] self.queue@[k]).node,
            self.queue@[k].arriving_from,
            self.queue@[k].value@,
        )
        &&& (self.choosing is Some ==> token_ok(g, self.choosing->0.node, self.choosing->0.arriving_from, self.choosing->0.value@)
            && g.nodes[self.choosing->0.node as int].kind is Randomised)
        &&& forall|t: u64| #[trigger] self.pending@.contains_key(t) ==> t < self.next_ticket
        &&& forall|t: u64| #[trigger] self.pending@.contains_key(t) ==> {
            let p = self.pending@[t];
            &&& p.node < g.nodes.len()
            &&& g.nodes[p.node as int].kind is Task
            &&& p.next == g.nodes[p.node as int].kind->Task_next
            &&& (p.next is Some ==> p.next->0 < g.nodes.len() && accepts_from(g.nodes[p.next->0 as int].kind, p.node))
            &&& (p.node != g.output ==> p.next is Some)
        }
        &&& forall|n: usize| #[trigger] self.convergences.arrivals().contains_key(n) ==> {
            &&& n < g.nodes.len()
            &&& g.nodes[n as int].kind is Converge
            &&& self.convergences.arrivals()[n].len() == g.nodes[n as int].kind->Converge_inputs.len()
            &&& slots_wf(self.convergences.arrivals()[n])
        }
        &&& (self.output is Some ==> self.output->0.wf())
    }

    /// A new execution with the payload waiting at the entry.
    pub fn new(graph: Arc<CompiledGraph>, payload: JsonValue) -> (result: Execution)
        requires
            runnable(*graph),
            payload.wf(),
        ensures
            result.inv(),
            !result.started_view(),
            result.pending_view() == Map::<u64, (usize, Seq<char>)>::empty(),
            result.output_view() is None,
            result.waiting() == 1,
            result.queue_view() == seq![(graph.entry, payload@)],
            result.gates_view() == seq![None::<GateView>],
            result.choosing_view() is None,
            result.graph_view() == *graph,
    {
        let entry = graph.entry;
        let mut queue: VecDeque<Token> = VecDeque::new();
        queue.push_back(Token { node: entry, arriving_from: None, value: payload, flows: Vec::new(), gate: None });
        let result = Execution {
            graph,
            queue,
            pending: HashMap::new(),
            convergences: Convergences::new(),
            next_ticket: 0,
            output: None,
            started: false,
            choosing: None,
        };
        assert(result.pending_view() =~= Map::<u64, (usize, Seq<char>)>::empty());
        assert(result.queue_view() =~= seq![(graph.entry, result.queue@[0].value@)]);
        assert(result.gates_view() =~= seq![None::<GateView>]);
        result
    }

    /// Marks the execution started; fails if it already was.
    pub fn start(&mut self) -> (result: Result<(), ExecutionFailure>)
        requires
            old(self).inv(),
        ensures
            final(self).inv(),
            old(self).started_view() ==> (result matches Err(ExecutionFailure::AlreadyStarted)) && *final(self) == *old(self),
            !old(self).started_view() ==> result is Ok && final(self).started_view() && final(self).pending_view() == old(self).pending_view()
                && final(self).waiting() == old(self).waiting() && final(self).output_view() == old(self).output_view(),
    {
        if self.started {
            return Err(ExecutionFailure::AlreadyStarted);
        }
        self.started = true;
        Ok(())
    }

    /// What a pending ticket stands for.
    pub fn pending_task(&self, ticket: u64) -> (result: Option<PendingTaskContext>)
        ensures
            match result {
                Some(c) => self.pending_view().contains_key(ticket) && self.pending_view()[ticket] == (c.node, c.task_name@),
                None => !self.pending_view().contains_key(ticket),
            },
    {
        match self.pending.get(&ticket) {
            Some(p) => Some(PendingTaskContext { node: p.node, task_name: owned(p.task_name.as_str()) }),
            None => None,
        }
    }

    /// The output, once reached.
    pub fn output(&self) -> (result: Option<JsonValue>)
        ensures
            match result {
                Some(v) => self.output_view() == Some(v@),
                None => self.output_view() is None,
            },
    {
        match &self.output {
            Some(v) => Some(v.duplicate()),
            None => None,
        }
    }

    /// Whether the output has been reached.
    pub fn finished(&self) -> (result: bool)
        ensures
            result == (self.output_view() is Some),
    {
        self.output.is_some()
    }

    /// Passes a value on from `source`: it becomes the output when `source` is the output
    /// node, else a token at `next`.
    fn continue_after(&mut self, source: usize, next: Option<usize>, value: JsonValue, flows: Vec<String>)
        requires
            old(self).inv(),
            source < old(self).graph_view().nodes.len(),
            value.wf(),
            next is Some ==> next->0 < old(self).graph_view().nodes.len()
                && accepts_from(old(self).graph_view().nodes[next->0 as int].kind, source),
            source != old(self).graph_view().output ==> next is Some,
        ensures
            final(self).inv(),
            final(self).pending_view() == old(self).pending_view(),
            final(self).started_view() == old(self).started_view(),
            final(self).choosing_view() == old(self).choosing_view(),
            final(self).graph_view() == old(self).graph_view(),
            final(self).arrivals_view() == old(self).arrivals_view(),
            source == old(self).graph_view().output ==> final(self).output_view() == Some(value@)
                && final(self).queue_view() == old(self).queue_view() && final(self).gates_view() == old(self).gates_view(),
            source != old(self).graph_view().output ==> final(self).output_view() == old(self).output_view()
                && final(self).queue_view() == old(self).queue_view().push((next->0, value@))
                && final(self).gates_view() == old(self).gates_view().push(None),
    {
        if source == self.graph.output {
            self.output = Some(value);
        } else {
            let target = match next {
                Some(t) => t,
                None => {
                    assert(false);
                    0
                },
            };
            let ghost before = self.queue@;
            self.queue.push_back(Token { node: target, arriving_from: Some(source), value, flows, gate: None });
            proof {
                assert(self.queue_view() =~= old(self).queue_view().push((target, self.queue@.last().value@)));
                assert(self.gates_view() =~= old(self).gates_view().push(None));
                let g = *self.graph;
                assert forall|k: int| 0 <= k < self.queue@.len() implies token_ok(
                    g,
                    (#[trigger] self.queue@[k]).node,
                    self.queue@[k].arriving_from,
                    self.queue@[k].value@,
                ) by {
                    if k < before.len() {
                        assert(self.queue@[k] == before[k]);
                    }
                }
            }
        }
    }

    /// Feeds the result of a pending task back: the task's node passes it on.
    pub fn resume(&mut self, ticket: u64, value: JsonValue) -> (result: Result<(), ExecutionFailure>)
        requires
            old(self).inv(),
            value.wf(),
        ensures
            final(self).inv(),
            !old(self).pending_view().contains_key(ticket) ==> (result matches Err(ExecutionFailure::UnknownTicket))
                && *final(self) == *old(self),
            old(self).pending_view().contains_key(ticket) ==> result is Ok && final(self).pending_view() == old(self).pending_view().remove(ticket)
                && final(self).graph_view() == old(self).graph_view()
                && resumed(old(self).graph_view(), old(self).pending_view()[ticket].0, value@, *old(self), *final(self)),
    {
        if !self.pending.contains_key(&ticket) {
            return Err(ExecutionFailure::UnknownTicket);
        }
        let pending = match self.pending.remove(&ticket) {
            Some(p) => p,
            None => return Err(ExecutionFailure::UnknownTicket),
        };
        proof {
            assert(self.pending_view() =~= old(self).pending_view().remove(ticket));
        }
        self.continue_after(pending.node, pending.next, value, pending.flows);
        Ok(())
    }
}

/// A task result fed back at the task's node `node`: at the output node it becomes the output;
/// elsewhere it waits at the task's `next` node, after the tokens already waiting.
pub open spec fn resumed(g: CompiledGraph, node: usize, value: JsonData, before: Execution, after: Execution) -> bool {
    if node == g.output {
        after.output_view() == Some(value) && after.queue_view() == before.queue_view() && after.gates_view() == before.gates_view()
    } else {
        after.output_view() == before.output_view()
            && after.queue_view() == before.queue_view().push((g.nodes[node as int].kind->Task_next->0, value))
            && after.gates_view() == before.gates_view().push(None)
    }
}

/// What processing a token at `node` with `value` did, given the tokens still waiting
/// (`rest`), the pending tasks and the output before, the state after, and the requests
/// before and after:
/// - a task hands out one request for the value under a fresh ticket, now pending;
/// - a map-schema node maps the value and passes the result on (or fails as its mappings do);
/// - a deterministic gate passes the value to the target of its first accepting case;
/// - a randomised gate holds the value until the caller picks a route;
/// - a fan-out passes the value to every branch target, in order;
/// - a convergence node records the value and, once all its inputs have arrived, passes on
///   their joined object;
/// - a raise-error node stops with its message and the context of a gate choice that routed
///   the token to it.
///
/// `gate` is the context of a gate choice that routed the token, and `gates` the same for the
/// tokens still waiting; a token a gate sends carries what that gate saw, any other new token
/// nothing.
pub open spec fn token_outcome(
    g: CompiledGraph,
    node: usize,
    value: JsonData,
    source: Option<usize>,
    flows: Seq<Seq<char>>,
    gate: Option<GateView>,
    arrivals: Map<usize, Seq<Option<(JsonData, Seq<Seq<char>>)>>>,
    rest: Seq<(usize, JsonData)>,
    gates: Seq<Option<GateView>>,
    pending: Map<u64, (usize, Seq<char>)>,
    output: Option<JsonData>,
    after: Execution,
    requests_before: Seq<TaskRequest>,
    requests_after: Seq<TaskRequest>,
    result: Result<Step, ExecutionFailure>,
) -> bool {
    match g.nodes[node as int].kind {
        NodeKind::Task { task, .. } => {
            &&& result matches Ok(Step::Processed)
            &&& requests_after.len() == requests_before.len() + 1
            &&& requests_after.last().node == node
            &&& requests_after.last().task_name@ == task@
            &&& requests_after.last().payload@ == value
            &&& !pending.contains_key(requests_after.last().ticket)
            &&& after.pending_view() == pending.insert(requests_after.last().ticket, (node, task@))
            &&& after.queue_view() == rest
            &&& after.gates_view() == gates
            &&& after.output_view() == output
        },
        NodeKind::MapSchema { mappings, next } => match map_fold(value, mappings@) {
            Ok(acc) => {
                &&& result matches Ok(Step::Processed)
                &&& requests_after == requests_before
                &&& after.pending_view() == pending
                &&& node == g.output ==> after.output_view() == Some(JsonData::Object(acc)) && after.queue_view() == rest
                    && after.gates_view() == gates
                &&& node != g.output ==> after.output_view() == output
                    && after.queue_view() == rest.push((next->0, JsonData::Object(acc)))
                    && after.gates_view() == gates.push(None)
            },
            Err((k, reason)) => result matches Err(ExecutionFailure::Mapping(f))
                && failure_matches(f, g.nodes[node as int].id@, mappings@[k], reason),
        },
        NodeKind::Deterministic { select, cases } => {
            &&& result matches Ok(Step::Processed)
            &&& requests_after == requests_before
            &&& after.pending_view() == pending
            &&& after.output_view() == output
            &&& after.queue_view() == rest.push((
                cases@[first_accepting(resolve(value, pointer_path(select)), cases@, 0)->0].target_spec(),
                value,
            ))
            &&& after.gates_view() == gates.push(Some((
                g.nodes[node as int].id@,
                Some(select.source_view()),
                Some(resolve(value, pointer_path(select)) is Some),
                resolve(value, pointer_path(select)),
                Some(case_operator(cases@[first_accepting(resolve(value, pointer_path(select)), cases@, 0)->0])),
            )))
        },
        NodeKind::Randomised { routes } => {
            &&& result matches Ok(Step::Choice(c)) && c.node == node && c.routes == routes.len()
            &&& after.choosing_view() == Some(node)
            &&& after.held_value() == value
            &&& requests_after == requests_before
            &&& after.pending_view() == pending
            &&& after.output_view() == output
            &&& after.queue_view() == rest
            &&& after.gates_view() == gates
        },
        NodeKind::FanOut { branches } => {
            &&& result matches Ok(Step::Processed)
            &&& requests_after == requests_before
            &&& after.pending_view() == pending
            &&& after.output_view() == output
            &&& after.queue_view() == rest + Seq::new(branches.len() as nat, |k: int| (branches[k].target, value))
            &&& after.gates_view() == gates + Seq::new(branches.len() as nat, |k: int| None::<GateView>)
        },
        NodeKind::Converge { .. } => {
            &&& result matches Ok(Step::Processed)
            &&& requests_after == requests_before
            &&& after.pending_view() == pending
            &&& converged(g, node, source->0, value, flows, arrivals, rest, gates, output, after)
        },
        NodeKind::Raise { message } => result matches Err(ExecutionFailure::Routing(f))
            && f.node_id@ == g.nodes[node as int].id@ && f.message@ == message@ && gate_view(f.gate) == gate,
    }
}

/// A task hands out the value that reached it; the result fed back under the request's ticket
/// becomes the output when the task is the output node, and otherwise waits at the task's
/// `next` node.
pub proof fn lemma_task_round_trip(
    g: CompiledGraph,
    node: usize,
    value: JsonData,
    source: Option<usize>,
    flows: Seq<Seq<char>>,
    gate: Option<GateView>,
    arrivals: Map<usize, Seq<Option<(JsonData, Seq<Seq<char>>)>>>,
    rest: Seq<(usize, JsonData)>,
    gates: Seq<Option<GateView>>,
    pending: Map<u64, (usize, Seq<char>)>,
    output: Option<JsonData>,
    after: Execution,
    requests_before: Seq<TaskRequest>,
    requests_after: Seq<TaskRequest>,
    result: Result<Step, ExecutionFailure>,
    fed_back: JsonData,
    later: Execution,
)
    requires
        token_outcome(g, node, value, source, flows, gate, arrivals, rest, gates, pending, output, after, requests_before, requests_after, result),
        g.nodes[node as int].kind is Task,
        resumed(g, after.pending_view()[requests_after.last().ticket].0, fed_back, after, later),
    ensures
        requests_after.last().payload@ == value,
        node == g.output ==> later.output_view() == Some(fed_back),
        node != g.output ==> later.queue_view() == rest.push((g.nodes[node as int].kind->Task_next->0, fed_back)),
{
    assert(after.pending_view()[requests_after.last().ticket] == (node, g.nodes[node as int].kind->Task_task@));
}

/// What a deterministic gate at `node` saw of `value`: its identifier, its pointer, whether a
/// value was found there, that value, and the operator of the case it matched.
pub open spec fn deterministic_gate_view(g: CompiledGraph, node: usize, value: JsonData) -> Option<GateView> {
    let select = g.nodes[node as int].kind->Deterministic_select;
    let cases = g.nodes[node as int].kind->Deterministic_cases@;
    let selected = resolve(value, pointer_path(select));
    Some((
        g.nodes[node as int].id@,
        Some(select.source_view()),
        Some(selected is Some),
        selected,
        Some(case_operator(cases[first_accepting(selected, cases, 0)->0])),
    ))
}

/// A raise-error node reached directly from a node reports gate context only for a direct
/// deterministic gate, and then what that gate saw; reached directly from a map-schema,
/// fan-out or convergence node it reports none. Here `node` processes `value` with nothing
/// else waiting, and the first token it leaves is then processed at a raise-error node.
pub proof fn lemma_raise_reports_direct_gate(
    g: CompiledGraph,
    node: usize,
    value: JsonData,
    source: Option<usize>,
    flows: Seq<Seq<char>>,
    gate: Option<GateView>,
    arrivals: Map<usize, Seq<Option<(JsonData, Seq<Seq<char>>)>>>,
    pending: Map<u64, (usize, Seq<char>)>,
    output: Option<JsonData>,
    after: Execution,
    requests_before: Seq<TaskRequest>,
    requests_after: Seq<TaskRequest>,
    result: Result<Step, ExecutionFailure>,
    next_source: Option<usize>,
    next_flows: Seq<Seq<char>>,
    later: Execution,
    requests_later: Seq<TaskRequest>,
    next_result: Result<Step, ExecutionFailure>,
)
    requires
        token_outcome(g, node, value, source, flows, gate, arrivals, Seq::empty(), Seq::empty(), pending, output,
            after, requests_before, requests_after, result),
        result is Ok,
        after.queue_view().len() >= 1,
        g.nodes[after.queue_view()[0].0 as int].kind is Raise,
        token_outcome(g, after.queue_view()[0].0, after.queue_view()[0].1, next_source, next_flows, after.gates_view()[0],
            after.arrivals_view(), after.queue_view().drop_first(), after.gates_view().drop_first(), after.pending_view(),
            after.output_view(), later, requests_after, requests_later, next_result),
    ensures
        next_result matches Err(ExecutionFailure::Routing(f)) && gate_view(f.gate) == if g.nodes[node as int].kind is Deterministic {
            deterministic_gate_view(g, node, value)
        } else {
            None
        },
{
    match g.nodes[node as int].kind {
        NodeKind::Deterministic { .. } => {
            assert(after.gates_view() == Seq::<Option<GateView>>::empty().push(deterministic_gate_view(g, node, value)));
        },
        NodeKind::FanOut { branches } => {
            assert(after.gates_view()[0] == (Seq::<Option<GateView>>::empty() + Seq::new(branches.len() as nat, |k: int| None::<GateView>))[0]);
        },
        NodeKind::MapSchema { mappings, next } => {
            if node == g.output {
                assert(after.queue_view().len() == 0);
            }
            assert(after.gates_view()[0] == Seq::<Option<GateView>>::empty().push(None::<GateView>)[0]);
        },
        NodeKind::Converge { .. } => {
            assert(after.gates_view()[0] == None::<GateView>);
        },
        _ => {},
    }
}

/// A value arriving at convergence node `node` from `source`: it takes its input's slot; once
/// every input has arrived, the object of the inputs' values keyed by flow identifier is passed
/// on (as the output at the output node) and the node's arrivals are forgotten.
pub open spec fn converged(
    g: CompiledGraph,
    node: usize,
    source: usize,
    value: JsonData,
    flows: Seq<Seq<char>>,
    arrivals: Map<usize, Seq<Option<(JsonData, Seq<Seq<char>>)>>>,
    rest: Seq<(usize, JsonData)>,
    gates: Seq<Option<GateView>>,
    output: Option<JsonData>,
    after: Execution,
) -> bool {
    let inputs = g.nodes[node as int].kind->Converge_inputs@;
    let next = g.nodes[node as int].kind->Converge_next;
    let slots = arrivals_after(
        if arrivals.contains_key(node) { Some(arrivals[node]) } else { None },
        inputs,
        input_from(inputs, source, 0)->0,
        value,
        flows,
    );
    if all_arrived(slots) {
        &&& after.arrivals_view() == arrivals.remove(node)
        &&& node == g.output ==> after.output_view() == Some(JsonData::Object(joined_members(inputs, slots)))
            && after.queue_view() == rest && after.gates_view() == gates
        &&& node != g.output ==> after.output_view() == output
            && after.queue_view() == rest.push((next->0, JsonData::Object(joined_members(inputs, slots))))
            && after.gates_view() == gates.push(None)
    } else {
        &&& after.arrivals_view() == arrivals.insert(node, slots)
        &&& after.output_view() == output
        &&& after.queue_view() == rest
        &&& after.gates_view() == gates
    }
}

/// The requests handed out are pending under their tickets.
pub open spec fn requests_pending(requests: Seq<TaskRequest>, from: int, pending: Map<u64, (usize, Seq<char>)>) -> bool {
    forall|k: int| from <= k < requests.len() ==> pending.contains_key((#[trigger] requests[k]).ticket)
        && pending[requests[k].ticket] == (requests[k].node, requests[k].task_name@)
}

impl Execution {
    /// Processes one token: a task is handed out under a new ticket, a map-schema node maps
    /// its input, a deterministic gate routes by its first accepting case, a fan-out opens one
    /// flow per branch, a convergence node waits for all its inputs, and a raise-error node
    /// stops the execution. A randomised gate is left for the caller to choose a route.
    pub fn step(&mut self, requests: &mut Vec<TaskRequest>) -> (result: Result<Step, ExecutionFailure>)
        requires
            old(self).inv(),
            old(self).ticket_available(),
        ensures
            final(self).inv(),
            final(self).graph_view() == old(self).graph_view(),
            final(self).started_view() == old(self).started_view(),
            final(requests)@.take(old(requests).len() as int) == old(requests)@,
            final(requests).len() >= old(requests).len(),
            requests_pending(final(requests)@, old(requests).len() as int, final(self).pending_view()),
            old(self).choosing_view() is Some ==> (result matches Ok(Step::Choice(c)) && c.node == old(self).choosing_view()->0
                && *final(self) == *old(self)),
            old(self).choosing_view() is None && old(self).waiting() == 0 ==> (result matches Ok(Step::Idle)) && *final(self) == *old(self),
            old(self).choosing_view() is None && old(self).waiting() > 0 ==> token_outcome(
                old(self).graph_view(),
                old(self).queue_view()[0].0,
                old(self).queue_view()[0].1,
                old(self).sources_view()[0],
                old(self).flows_view()[0],
                old(self).gates_view()[0],
                old(self).arrivals_view(),
                old(self).queue_view().drop_first(),
                old(self).gates_view().drop_first(),
                old(self).pending_view(),
                old(self).output_view(),
                *final(self),
                old(requests)@,
                final(requests)@,
                result,
            ),
            result matches Ok(Step::Choice(c)) ==> final(self).choosing_view() == Some(c.node),
    {
        let ghost old_pending = self.pending_view();
        let ghost start = requests@;
        if let Some(t) = &self.choosing {
            let routes = match &self.graph.nodes[t.node].kind {
                NodeKind::Randomised { routes } => routes.len(),
                _ => 0,
            };
            return Ok(Step::Choice(RouteChoice { node: t.node, routes }));
        }
        if self.queue.len() == 0 {
            assert(requests@.take(start.len() as int) =~= start);
            return Ok(Step::Idle);
        }
        let token = match self.queue.pop_front() {
            Some(t) => t,
            None => return Ok(Step::Idle),
        };
        let ghost rest = self.queue@;
        proof {
            assert forall|k: int| 0 <= k < rest.len() implies token_ok(
                *self.graph,
                (#[trigger] rest[k]).node,
                rest[k].arriving_from,
                rest[k].value@,
            ) by {
                assert(rest[k] == old(self).queue@[k + 1]);
            }
            assert(old(self).queue@[0] == token);
            assert(self.queue_view() =~= old(self).queue_view().drop_first());
            assert(self.gates_view() =~= old(self).gates_view().drop_first());
            assert(old(self).gates_view()[0] == gate_view(token.gate));
            assert(old(self).queue_view()[0] == (token.node, token.value@));
            assert(old(self).sources_view()[0] == token.arriving_from);
            assert(old(self).flows_view()[0] == texts(token.flows@));
        }
        let result = self.process_token(token, requests);
        result
    }

    /// Processes one token taken from the queue.
    fn process_token(&mut self, token: Token, requests: &mut Vec<TaskRequest>) -> (result: Result<Step, ExecutionFailure>)
        requires
            old(self).inv(),
            old(self).next_ticket < u64::MAX,
            old(self).choosing is None,
            token_ok(*old(self).graph, token.node, token.arriving_from, token.value@),
        ensures
            final(self).inv(),
            final(self).graph_view() == old(self).graph_view(),
            final(self).started_view() == old(self).started_view(),
            final(requests)@.take(old(requests).len() as int) == old(requests)@,
            final(requests).len() >= old(requests).len(),
            requests_pending(final(requests)@, old(requests).len() as int, final(self).pending_view()),
            result matches Ok(Step::Choice(c)) ==> final(self).choosing_view() == Some(c.node),
            token_outcome(
                old(self).graph_view(),
                token.node,
                token.value@,
                token.arriving_from,
                texts(token.flows@),
                gate_view(token.gate),
                old(self).arrivals_view(),
                old(self).queue_view(),
                old(self).gates_view(),
                old(self).pending_view(),
                old(self).output_view(),
                *final(self),
                old(requests)@,
                final(requests)@,
                result,
            ),
    {
        let ghost start = requests@;
        let ghost g = self.graph_view();
        let node = token.node;
        match &self.graph.nodes[node].kind {
            NodeKind::Task { task, next } => {
                let ticket = self.next_ticket;
                assert(!old(self).pending_view().contains_key(ticket));
                self.next_ticket = self.next_ticket + 1;
                let task_name = owned(task.as_str());
                let next = *next;
                proof {
                    assert(g.nodes[node as int].kind.wf(g.nodes.len() as int));
                    assert(continues(g, node as int));
                    assert(successors(g.nodes[node as int].kind).contains(next->0) || next is None);
                }
                self.pending.insert(ticket, PendingTask { node, task_name: owned(task_name.as_str()), next, flows: token.flows });
                assert(self.pending_view() =~= old(self).pending_view().insert(ticket, (node, task_name@)));
                requests.push(TaskRequest { ticket, node, task_name, payload: token.value });
                proof {
                    assert(requests@.take(start.len() as int) =~= start);
                    assert forall|k: int| start.len() <= k < requests@.len() implies self.pending_view().contains_key((#[trigger] requests@[k]).ticket)
                        && self.pending_view()[requests@[k].ticket] == (requests@[k].node, requests@[k].task_name@) by {
                    }
                }
                Ok(Step::Processed)
            },
            NodeKind::MapSchema { mappings, next } => {
                let next = *next;
                proof {
                    assert(g.nodes[node as int].kind.wf(g.nodes.len() as int));
                    assert(continues(g, node as int));
                    if next is Some {
                        assert(successors(g.nodes[node as int].kind).contains(next->0));
                    }
                }
                let mapped = apply_mappings(self.graph.nodes[node].id.as_str(), &token.value, mappings);
                match mapped {
                    Ok(value) => {
                        proof {
                            super::mapping::lemma_fold_wf(token.value@, mappings@);
                        }
                        self.continue_after(node, next, value, token.flows);
                        assert(requests@.take(start.len() as int) =~= start);
                        Ok(Step::Processed)
                    },
                    Err(failure) => {
                        assert(requests@.take(start.len() as int) =~= start);
                        Err(ExecutionFailure::Mapping(failure))
                    },
                }
            },
            _ => {
                self.process_routing(token, requests)
            },
        }
    }
}

impl Execution {
    /// Queues a token at a successor of `source`.
    fn enqueue(&mut self, target: usize, source: usize, value: JsonValue, flows: Vec<String>, gate: Option<GateSelectionContext>)
        requires
            old(self).inv(),
            source < old(self).graph_view().nodes.len(),
            successors(old(self).graph_view().nodes[source as int].kind).contains(target),
            target < old(self).graph_view().nodes.len(),
            value.wf(),
        ensures
            final(self).inv(),
            final(self).graph_view() == old(self).graph_view(),
            final(self).started_view() == old(self).started_view(),
            final(self).pending_view() == old(self).pending_view(),
            final(self).choosing_view() == old(self).choosing_view(),
            final(self).output_view() == old(self).output_view(),
            final(self).queue_view() == old(self).queue_view().push((target, value@)),
            final(self).gates_view() == old(self).gates_view().push(gate_view(gate)),
    {
        let ghost before = self.queue@;
        let ghost data = value@;
        let ghost seen = gate_view(gate);
        self.queue.push_back(Token { node: target, arriving_from: Some(source), value, flows, gate });
        proof {
            assert(self.queue_view() =~= old(self).queue_view().push((target, data)));
            assert(self.gates_view() =~= old(self).gates_view().push(seen));
            let g = *self.graph;
            assert(accepts_from(g.nodes[target as int].kind, source));
            assert forall|k: int| 0 <= k < self.queue@.len() implies token_ok(
                g,
                (#[trigger] self.queue@[k]).node,
                self.queue@[k].arriving_from,
                self.queue@[k].value@,
            ) by {
                if k < before.len() {
                    assert(self.queue@[k] == before[k]);
                }
            }
        }
    }

    /// Passes the token to every branch target of a fan-out, each with one more open flow.
    fn fan_out(&mut self, token: Token)
        requires
            old(self).inv(),
            old(self).choosing is None,
            token_ok(*old(self).graph, token.node, token.arriving_from, token.value@),
            old(self).graph_view().nodes[token.node as int].kind is FanOut,
        ensures
            final(self).inv(),
            final(self).graph_view() == old(self).graph_view(),
            final(self).started_view() == old(self).started_view(),
            final(self).pending_view() == old(self).pending_view(),
            final(self).choosing_view() == old(self).choosing_view(),
            final(self).output_view() == old(self).output_view(),
            final(self).queue_view() == old(self).queue_view() + Seq::new(
                old(self).graph_view().nodes[token.node as int].kind->FanOut_branches.len() as nat,
                |k: int| (old(self).graph_view().nodes[token.node as int].kind->FanOut_branches[k].target, token.value@),
            ),
            final(self).gates_view() == old(self).gates_view() + Seq::new(
                old(self).graph_view().nodes[token.node as int].kind->FanOut_branches.len() as nat,
                |k: int| None::<GateView>,
            ),
    {
        let ghost g = self.graph_view();
        let node = token.node;
        proof {
            assert(g.nodes[node as int].kind.wf(g.nodes.len() as int));
        }
        let branches = match &self.graph.nodes[node].kind {
            NodeKind::FanOut { branches } => branches,
            _ => {
                assert(false);
                return;
            },
        };
        let count = branches.len();
        let ghost bs = branches@;
        let ghost rest = self.queue_view();
        let ghost rest_gates = self.gates_view();
        let mut k: usize = 0;
        while k < count
            invariant
                k <= count,
                bs == g.nodes[node as int].kind->FanOut_branches@,
                self.queue_view() == rest + Seq::new(k as nat, |q: int| (bs[q].target, token.value@)),
                self.gates_view() == rest_gates + Seq::new(k as nat, |q: int| None::<GateView>),
                self.output_view() == old(self).output_view(),
                self.inv(),
                self.choosing is None,
                *self.graph == g,
                node < g.nodes.len(),
                g.nodes[node as int].kind is FanOut,
                count == g.nodes[node as int].kind->FanOut_branches.len(),
                token.value.wf(),
                self.started_view() == old(self).started_view(),
                self.pending_view() == old(self).pending_view(),
            decreases count - k,
        {
            let (flow_id, target) = match &self.graph.nodes[node].kind {
                NodeKind::FanOut { branches } => (owned(branches[k].flow_id.as_str()), branches[k].target),
                _ => {
                    assert(false);
                    (owned(""), 0)
                },
            };
            proof {
                let bs = g.nodes[node as int].kind->FanOut_branches;
                assert(bs[k as int].target == target);
                assert(successors(g.nodes[node as int].kind).contains(target));
                assert(g.nodes[node as int].kind.wf(g.nodes.len() as int));
            }
            let mut flows = copy_texts(&token.flows);
            flows.push(flow_id);
            let copy = token.value.duplicate();
            let ghost before = self.queue_view();
            self.enqueue(target, node, copy, flows, None);
            assert(self.queue_view() =~= rest + Seq::new((k + 1) as nat, |q: int| (bs[q].target, token.value@)));
            assert(self.gates_view() =~= rest_gates + Seq::new((k + 1) as nat, |q: int| None::<GateView>));
            k = k + 1;
        }
        assert(bs.len() == count);
        assert(self.queue_view() =~= old(self).queue_view() + Seq::new(
            g.nodes[token.node as int].kind->FanOut_branches.len() as nat,
            |k: int| (g.nodes[token.node as int].kind->FanOut_branches[k].target, token.value@),
        ));
        assert(self.gates_view() =~= old(self).gates_view() + Seq::new(
            g.nodes[token.node as int].kind->FanOut_branches.len() as nat,
            |k: int| None::<GateView>,
        ));
    }

    /// Records the token's arrival at a convergence node; once every input has arrived, their
    /// joined value is passed on.
    fn converge(&mut self, token: Token)
        requires
            old(self).inv(),
            old(self).choosing is None,
            token_ok(*old(self).graph, token.node, token.arriving_from, token.value@),
            old(self).graph_view().nodes[token.node as int].kind is Converge,
        ensures
            final(self).inv(),
            final(self).graph_view() == old(self).graph_view(),
            final(self).started_view() == old(self).started_view(),
            final(self).pending_view() == old(self).pending_view(),
            final(self).choosing_view() == old(self).choosing_view(),
            converged(
                old(self).graph_view(),
                token.node,
                token.arriving_from->0,
                token.value@,
                texts(token.flows@),
                old(self).arrivals_view(),
                old(self).queue_view(),
                old(self).gates_view(),
                old(self).output_view(),
                *final(self),
            ),
    {
        let ghost g = self.graph_view();
        let ghost old_queue = self.queue_view();
        let node = token.node;
        proof {
            assert(g.nodes[node as int].kind.wf(g.nodes.len() as int));
        }
        let (inputs, next) = match &self.graph.nodes[node].kind {
            NodeKind::Converge { inputs, next } => (inputs, next),
            _ => {
                assert(false);
                return;
            },
        };
        let next = *next;
        let source = match token.arriving_from {
            Some(s) => s,
            None => {
                assert(false);
                0
            },
        };
        proof {
            assert(continues(g, node as int));
            if next is Some {
                assert(successors(g.nodes[node as int].kind).contains(next->0));
            }
            if self.convergences.arrivals().contains_key(node) {
                assert(self.convergences.arrivals()[node].len() == inputs.len());
            }
        }
        let ghost before = self.convergences.arrivals();
        assert(before.contains_key(node) ==> before[node].len() == inputs@.len());
        assert(g.nodes[node as int].kind->Converge_inputs == *inputs);
        let arrived = self.convergences.arrive(node, source, token.value, token.flows, inputs);
        proof {
            let slots = super::convergence::arrivals_after(
                if before.contains_key(node) { Some(before[node]) } else { None },
                inputs@,
                input_from(inputs@, source, 0)->0,
                token.value@,
                super::convergence::texts(token.flows@),
            );
            lemma_input_from(inputs@, source, 0);
            assert(slots.len() == inputs@.len()) by {
                if before.contains_key(node) {
                    assert(before[node].len() == inputs@.len());
                }
            }
            assert(slots_wf(slots)) by {
                let idx = input_from(inputs@, source, 0)->0;
                lemma_input_from(inputs@, source, 0);
                assert forall|q: int| 0 <= q < slots.len() implies data_wf(arrived_value(#[trigger] slots[q])) by {
                    if q != idx {
                        if before.contains_key(node) {
                            assert(slots_wf(before[node]));
                            assert(slots[q] == before[node][q]);
                        }
                    }
                }
            }
            assert forall|n: usize| #[trigger] self.convergences.arrivals().contains_key(n) implies {
                &&& n < g.nodes.len()
                &&& g.nodes[n as int].kind is Converge
                &&& self.convergences.arrivals()[n].len() == g.nodes[n as int].kind->Converge_inputs.len()
                &&& slots_wf(self.convergences.arrivals()[n])
            } by {
                if n != node {
                    assert(before.contains_key(n));
                }
            }
            if arrived is Some {
                lemma_joined_wf(inputs@, slots);
            }
        }
        match arrived {
            Some(converged) => {
                self.continue_after(node, next, converged.value, converged.flows);
            },
            None => {},
        }
    }

    /// Processes a token at a gate, a fan-out, a convergence node or a raise-error node.
    #[verifier::rlimit(80)]
    fn process_routing(&mut self, token: Token, requests: &mut Vec<TaskRequest>) -> (result: Result<Step, ExecutionFailure>)
        requires
            old(self).inv(),
            old(self).choosing is None,
            token_ok(*old(self).graph, token.node, token.arriving_from, token.value@),
            !(old(self).graph_view().nodes[token.node as int].kind is Task),
            !(old(self).graph_view().nodes[token.node as int].kind is MapSchema),
        ensures
            final(self).inv(),
            final(self).graph_view() == old(self).graph_view(),
            final(self).started_view() == old(self).started_view(),
            final(requests)@ == old(requests)@,
            final(self).pending_view() == old(self).pending_view(),
            result matches Ok(Step::Choice(c)) ==> final(self).choosing_view() == Some(c.node),
            token_outcome(
                old(self).graph_view(),
                token.node,
                token.value@,
                token.arriving_from,
                texts(token.flows@),
                gate_view(token.gate),
                old(self).arrivals_view(),
                old(self).queue_view(),
                old(self).gates_view(),
                old(self).pending_view(),
                old(self).output_view(),
                *final(self),
                old(requests)@,
                final(requests)@,
                result,
            ),
    {
        let ghost g = self.graph_view();
        let ghost tv = token.value@;
        let node = token.node;
        proof {
            assert(g.nodes[node as int].kind.wf(g.nodes.len() as int));
        }
        match &self.graph.nodes[node].kind {
            NodeKind::Deterministic { select, cases } => {
                let selected: Option<JsonValue> = match token.value.pointer(select) {
                    Some(v) => Some(v.duplicate()),
                    None => None,
                };
                proof {
                    super::mapping::lemma_resolve_wf(token.value@, pointer_path(*select));
                    assert forall|k: int| 0 <= k < cases.len() implies (#[trigger] cases[k]).wf(usize::MAX as int + 1) by {
                        assert(cases[k].wf(g.nodes.len() as int));
                    }
                }
                let selected_ref = selected.as_ref();
                assert(crate::json_value::opt_data(selected_ref) == resolve(token.value@, pointer_path(*select)));
                let (target, operator) = select_case(selected_ref, cases);
                proof {
                    let k = super::gate::first_accepting(crate::json_value::opt_data(selected_ref), cases@, 0)->0;
                    super::gate::lemma_first_accepting_range(crate::json_value::opt_data(selected_ref), cases@, 0);
                    assert(cases@[k].wf(g.nodes.len() as int));
                    assert(cases[k].target_spec() == target);
                    assert(successors(g.nodes[node as int].kind).contains(target));
                }
                let found = selected.is_some();
                let gate = GateSelectionContext {
                    gate_node_id: owned(self.graph.nodes[node].id.as_str()),
                    selected_path: Some(owned(select.as_str())),
                    value_found: Some(found),
                    selected_value: selected,
                    matched_operator: Some(owned(operator)),
                };
                self.enqueue(target, node, token.value, token.flows, Some(gate));
                assert(self.queue_view() == old(self).queue_view().push((
                    cases@[first_accepting(resolve(tv, pointer_path(*select)), cases@, 0)->0].target_spec(),
                    tv,
                )));
                assert(self.pending_view() == old(self).pending_view());
                assert(self.output_view() == old(self).output_view());
                Ok(Step::Processed)
            },
            NodeKind::Randomised { routes } => {
                let count = routes.len();
                self.choosing = Some(token);
                assert(self.queue_view() == old(self).queue_view());
                assert(self.pending_view() == old(self).pending_view());
                assert(self.output_view() == old(self).output_view());
                assert(self.choosing_view() == Some(node));
                Ok(Step::Choice(RouteChoice { node, routes: count }))
            },
            NodeKind::FanOut { .. } => {
                self.fan_out(token);
                Ok(Step::Processed)
            },
            NodeKind::Converge { .. } => {
                self.converge(token);
                Ok(Step::Processed)
            },
            NodeKind::Raise { message } => {
                let failure = RoutingFailure {
                    node_id: owned(self.graph.nodes[node].id.as_str()),
                    message: owned(message.as_str()),
                    gate: token.gate,
                };
                Err(ExecutionFailure::routing(failure))
            },
            _ => {
                Ok(Step::Processed)
            },
        }
    }

    /// Sends the token waiting at a randomised gate along the chosen route.
    pub fn choose_route(&mut self, route: usize) -> (result: bool)
        requires
            old(self).inv(),
        ensures
            final(self).inv(),
            final(self).graph_view() == old(self).graph_view(),
            final(self).started_view() == old(self).started_view(),
            final(self).pending_view() == old(self).pending_view(),
            result <==> old(self).choosing_view() is Some && route < old(self).graph_view().nodes[old(self).choosing_view()->0 as int].kind->Randomised_routes.len(),
            result ==> final(self).choosing_view() is None,
            result ==> final(self).queue_view() == old(self).queue_view().push((
                old(self).graph_view().nodes[old(self).choosing_view()->0 as int].kind->Randomised_routes[route as int].target,
                old(self).held_value(),
            )),
            result ==> final(self).gates_view() == old(self).gates_view().push(Some((
                old(self).graph_view().nodes[old(self).choosing_view()->0 as int].id@,
                None,
                None,
                None,
                None,
            ))),
            result ==> final(self).output_view() == old(self).output_view(),
            !result ==> *final(self) == *old(self),
    {
        let node = match &self.choosing {
            Some(t) => t.node,
            None => return false,
        };
        let ghost g = self.graph_view();
        let target = match &self.graph.nodes[node].kind {
            NodeKind::Randomised { routes } => {
                if route >= routes.len() {
                    return false;
                }
                routes[route].target
            },
            _ => return false,
        };
        let token = match self.choosing.take() {
            Some(t) => t,
            None => return false,
        };
        proof {
            assert(g.nodes[node as int].kind.wf(g.nodes.len() as int));
            assert(successors(g.nodes[node as int].kind).contains(target));
        }
        let gate = GateSelectionContext {
            gate_node_id: owned(self.graph.nodes[node].id.as_str()),
            selected_path: None,
            value_found: None,
            selected_value: None,
            matched_operator: None,
        };
        self.enqueue(target, node, token.value, token.flows, Some(gate));
        true
    }
}

/// The first input from a source is an input from it.
proof fn lemma_input_from(inputs: Seq<crate::graph::model::ConvergeInput>, source: usize, from: int)
    ensures
        input_from(inputs, source, from) is Some ==> from <= input_from(inputs, source, from)->0 < inputs.len(),
    decreases inputs.len() - from,
{
    if 0 <= from < inputs.len() && inputs[from].source != source {
        lemma_input_from(inputs, source, from + 1);
    }
}

fn copy_texts(v: &Vec<String>) -> (result: Vec<String>)
    ensures
        super::convergence::texts(result@) == super::convergence::texts(v@),
{
    let mut out: Vec<String> = Vec::new();
    let mut i: usize = 0;
    while i < v.len()
        invariant
            i <= v.len(),
            out.len() == i,
            forall|q: int| 0 <= q < i ==> out@[q]@ == v@[q]@,
        decreases v.len() - i,
    {
        out.push(owned(v[i].as_str()));
        i = i + 1;
    }
    assert(super::convergence::texts(out@) =~= super::convergence::texts(v@));
    out
}

/// Whether the keys of `a` begin the keys of `b` and differ from them.
fn nests_in(a: &JsonPointer, b: &JsonPointer) -> (result: bool)
    ensures
        result == (a.keys().is_prefix_of(b.keys()) && a.keys() != b.keys()),
{
    let ta = a.tokens();
    let tb = b.tokens();
    let ghost ka = a.keys();
    let ghost kb = b.keys();
    if ta.len() > tb.len() {
        return false;
    }
    let mut i: usize = 0;
    while i < ta.len()
        invariant
            i <= ta.len() <= tb.len(),
            ta@ == a.token_seq(),
            tb@ == b.token_seq(),
            ka == a.keys(),
            kb == b.keys(),
            forall|q: int| 0 <= q < i ==> #[trigger] ka[q] == kb[q],
        decreases ta.len() - i,
    {
        assert(ka[i as int] == ta@[i as int].key_view() && kb[i as int] == tb@[i as int].key_view());
        if !crate::text::text_eq(ta[i].key(), tb[i].key()) {
            assert(kb.take(ka.len() as int)[i as int] != ka[i as int]);
            return false;
        }
        i = i + 1;
    }
    assert(kb.take(ka.len() as int) =~= ka);
    if ta.len() == tb.len() {
        assert(ka =~= kb);
        false
    } else {
        true
    }
}

/// Whether the mapping targets of a node name members and do not nest in earlier values.
fn mapping_targets_safe(kind: &NodeKind) -> (result: bool)
    ensures
        result == targets_nest_safely(*kind),
{
    match kind {
        NodeKind::MapSchema { mappings, .. } => {
            let mut k: usize = 0;
            while k < mappings.len()
                invariant
                    k <= mappings.len(),
                    *kind matches NodeKind::MapSchema { mappings: ms, .. } && ms == *mappings,
                    forall|q: int| 0 <= q < k ==> {
                        &&& (#[trigger] mappings[q]).target.keys().len() >= 1
                        &&& forall|j: int| 0 <= j < q ==> !(#[trigger] mappings[j]).target.keys().is_prefix_of(mappings[q].target.keys())
                            || mappings[j].target.keys() == mappings[q].target.keys()
                    },
                decreases mappings.len() - k,
            {
                if mappings[k].target.tokens().len() == 0 {
                    assert(mappings[k as int].target.keys().len() == 0);
                    return false;
                }
                let mut j: usize = 0;
                while j < k
                    invariant
                        j <= k < mappings.len(),
                        *kind matches NodeKind::MapSchema { mappings: ms, .. } && ms == *mappings,
                        forall|p: int| 0 <= p < j ==> !(#[trigger] mappings[p]).target.keys().is_prefix_of(mappings[k as int].target.keys())
                            || mappings[p].target.keys() == mappings[k as int].target.keys(),
                    decreases k - j,
                {
                    if nests_in(&mappings[j].target, &mappings[k].target) {
                        assert(!(!mappings[j as int].target.keys().is_prefix_of(mappings[k as int].target.keys())
                            || mappings[j as int].target.keys() == mappings[k as int].target.keys()));
                        return false;
                    }
                    j = j + 1;
                }
                k = k + 1;
            }
            true
        },
        _ => true,
    }
}

/// Whether a node's successors accept tokens from it.
fn successors_accept(g: &CompiledGraph, i: usize) -> (result: bool)
    requires
        g.wf(),
        i < g.nodes.len(),
    ensures
        result == forall|t: usize| #[trigger] successors(g.nodes[i as int].kind).contains(t) ==> accepts_from(g.nodes[t as int].kind, i),
{
    proof {
        assert(g.nodes[i as int].kind.wf(g.nodes.len() as int));
    }
    let mut targets: Vec<usize> = Vec::new();
    match &g.nodes[i].kind {
        NodeKind::Task { next, .. } | NodeKind::MapSchema { next, .. } | NodeKind::Converge { next, .. } => {
            if let Some(t) = next {
                targets.push(*t);
            }
        },
        NodeKind::Deterministic { cases, .. } => {
            let mut k: usize = 0;
            while k < cases.len()
                invariant
                    k <= cases.len(),
                    targets.len() == k,
                    forall|q: int| 0 <= q < k ==> targets@[q] == cases[q].target_spec(),
                decreases cases.len() - k,
            {
                targets.push(case_target_of(&cases[k]));
                k = k + 1;
            }
        },
        NodeKind::Randomised { routes } => {
            let mut k: usize = 0;
            while k < routes.len()
                invariant
                    k <= routes.len(),
                    targets.len() == k,
                    forall|q: int| 0 <= q < k ==> targets@[q] == routes[q].target,
                decreases routes.len() - k,
            {
                targets.push(routes[k].target);
                k = k + 1;
            }
        },
        NodeKind::FanOut { branches } => {
            let mut k: usize = 0;
            while k < branches.len()
                invariant
                    k <= branches.len(),
                    targets.len() == k,
                    forall|q: int| 0 <= q < k ==> targets@[q] == branches[q].target,
                decreases branches.len() - k,
            {
                targets.push(branches[k].target);
                k = k + 1;
            }
        },
        NodeKind::Raise { .. } => {},
    }
    assert(forall|t: usize| #[trigger] successors(g.nodes[i as int].kind).contains(t) <==> targets@.contains(t)) by {
        assert forall|t: usize| #[trigger] successors(g.nodes[i as int].kind).contains(t) implies targets@.contains(t) by {
            match g.nodes[i as int].kind {
                NodeKind::Deterministic { cases, .. } => {
                    let k = choose|k: int| 0 <= k < cases.len() && #[trigger] cases[k].target_spec() == t;
                    assert(targets@[k] == t);
                },
                NodeKind::Randomised { routes } => {
                    let k = choose|k: int| 0 <= k < routes.len() && #[trigger] routes[k].target == t;
                    assert(targets@[k] == t);
                },
                NodeKind::FanOut { branches } => {
                    let k = choose|k: int| 0 <= k < branches.len() && #[trigger] branches[k].target == t;
                    assert(targets@[k] == t);
                },
                _ => {
                    assert(targets@[0] == t);
                },
            }
        }
        assert forall|t: usize| targets@.contains(t) implies #[trigger] successors(g.nodes[i as int].kind).contains(t) by {
            let k = choose|k: int| 0 <= k < targets.len() && targets@[k] == t;
            match g.nodes[i as int].kind {
                NodeKind::Deterministic { cases, .. } => {
                    assert(cases[k].target_spec() == t);
                },
                NodeKind::Randomised { routes } => {
                    assert(routes[k].target == t);
                },
                NodeKind::FanOut { branches } => {
                    assert(branches[k].target == t);
                },
                _ => {},
            }
        }
    }
    let mut k: usize = 0;
    while k < targets.len()
        invariant
            k <= targets.len(),
            g.wf(),
            i < g.nodes.len(),
            forall|t: usize| #[trigger] successors(g.nodes[i as int].kind).contains(t) <==> targets@.contains(t),
            forall|q: int| 0 <= q < targets.len() ==> #[trigger] targets@[q] < g.nodes.len(),
            forall|q: int| 0 <= q < k ==> accepts_from(g.nodes[#[trigger] targets@[q] as int].kind, i),
        decreases targets.len() - k,
    {
        let t = targets[k];
        match &g.nodes[t].kind {
            NodeKind::Converge { inputs, .. } => {
                if !lists_source(inputs, i) {
                    assert(successors(g.nodes[i as int].kind).contains(t));
                    return false;
                }
            },
            _ => {},
        }
        k = k + 1;
    }
    assert forall|t: usize| #[trigger] successors(g.nodes[i as int].kind).contains(t) implies accepts_from(g.nodes[t as int].kind, i) by {
        let q = choose|q: int| 0 <= q < targets.len() && targets@[q] == t;
        assert(accepts_from(g.nodes[targets@[q] as int].kind, i));
    }
    true
}

/// Whether some input comes from the source.
fn lists_source(inputs: &Vec<crate::graph::model::ConvergeInput>, source: usize) -> (result: bool)
    ensures
        result == (input_from(inputs@, source, 0) is Some),
{
    let mut q: usize = 0;
    while q < inputs.len()
        invariant
            q <= inputs.len(),
            input_from(inputs@, source, 0) == input_from(inputs@, source, q as int),
        decreases inputs.len() - q,
    {
        if inputs[q].source == source {
            return true;
        }
        q = q + 1;
    }
    false
}

fn case_target_of(case: &GateCase) -> (result: usize)
    ensures
        result == case.target_spec(),
{
    match case {
        GateCase::Eq { target, .. } => *target,
        GateCase::Lt { target, .. } => *target,
        GateCase::Le { target, .. } => *target,
        GateCase::Ge { target, .. } => *target,
        GateCase::Gt { target, .. } => *target,
        GateCase::Range { target, .. } => *target,
        GateCase::InSet { target, .. } => *target,
        GateCase::Otherwise { target } => *target,
    }
}

impl CompiledGraph {
    /// Whether an execution can run the graph without stopping unexpectedly.
    pub fn is_runnable(&self) -> (result: bool)
        requires
            self.wf(),
        ensures
            result == runnable(*self),
    {
        match &self.nodes[self.entry].kind {
            NodeKind::Converge { .. } => return false,
            _ => {},
        }
        let mut i: usize = 0;
        while i < self.nodes.len()
            invariant
                i <= self.nodes.len(),
                self.wf(),
                !(self.nodes[self.entry as int].kind is Converge),
                forall|q: int| 0 <= q < i ==> {
                    &&& continues(*self, q)
                    &&& targets_nest_safely(#[trigger] self.nodes[q].kind)
                    &&& match self.nodes[q].kind {
                        NodeKind::Deterministic { cases, .. } => has_otherwise(cases@),
                        NodeKind::Randomised { routes } => routes.len() >= 1,
                        _ => true,
                    }
                    &&& forall|t: usize| #[trigger] successors(self.nodes[q].kind).contains(t) ==> accepts_from(self.nodes[t as int].kind, q as usize)
                },
            decreases self.nodes.len() - i,
        {
            let is_output = i == self.output;
            let ok = match &self.nodes[i].kind {
                NodeKind::Task { next, .. } | NodeKind::MapSchema { next, .. } | NodeKind::Converge { next, .. } => is_output || next.is_some(),
                NodeKind::Deterministic { cases, .. } => {
                    let mut found = false;
                    let mut k: usize = 0;
                    while k < cases.len() && !found
                        invariant
                            k <= cases.len(),
                            found ==> has_otherwise(cases@),
                            !found ==> forall|q: int| 0 <= q < k ==> !(#[trigger] cases@[q] is Otherwise),
                        decreases cases.len() - k, if found { 0int } else { 1int },
                    {
                        match &cases[k] {
                            GateCase::Otherwise { .. } => {
                                found = true;
                            },
                            _ => {
                                k = k + 1;
                            },
                        }
                    }
                    found
                },
                NodeKind::Randomised { routes } => routes.len() >= 1,
                _ => true,
            };
            if !ok || !mapping_targets_safe(&self.nodes[i].kind) || !successors_accept(self, i) {
                return false;
            }
            i = i + 1;
        }
        true
    }
}

} // verus!
