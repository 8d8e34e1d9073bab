//! The compiled workflow graph and the value types shared by assessment and execution.
use vstd::prelude::*;

use crate::json_parsing::pointer::JsonPointer;
use crate::json_value::{Binary64, JsonValue};

verus! {

/// The type a mapping requires of the value it writes.
#[derive(Clone, Copy, Debug, PartialEq, Eq, Structural)]
pub enum ValueType {
    Object,
    Array,
    String,
    Number,
    Integer,
    Boolean,
    Null,
}

/// A JSON number: a signed 64-bit integer or a finite binary64.
#[derive(Clone, Copy, Debug, PartialEq, Eq, Structural)]
pub enum JsonNumber {
    Integer(i64),
    Float(Binary64),
}

impl JsonNumber {
    /// Floats are finite.
    pub open spec fn wf(self) -> bool {
        match self {
            JsonNumber::Integer(_) => true,
            JsonNumber::Float(b) => crate::graph::numbers::is_finite(b.bits),
        }
    }
}

/// A compiled graph: nodes by index, with the entry and the output.
pub struct CompiledGraph {
    pub entry: usize,
    pub output: usize,
    pub nodes: Vec<Node>,
}

/// A compiled node.
pub struct Node {
    pub id: String,
    pub kind: NodeKind,
}

/// What a node does, with its successors as node indexes.
pub enum NodeKind {
    Task { task: String, next: Option<usize> },
    MapSchema { mappings: Vec<Mapping>, next: Option<usize> },
    Deterministic { select: JsonPointer, cases: Vec<GateCase> },
    Randomised { routes: Vec<WeightedRoute> },
    FanOut { branches: Vec<Branch> },
    Converge { inputs: Vec<ConvergeInput>, next: Option<usize> },
    Raise { message: String },
}

/// Writes one value of the output of a map-schema node.
pub struct Mapping {
    pub target: JsonPointer,
    pub source: Option<JsonPointer>,
    pub default: Option<JsonValue>,
    pub value_type: ValueType,
}

/// One case of a deterministic gate.
#[allow(inconsistent_fields)]
pub enum GateCase {
    Eq { value: JsonValue, target: usize },
    Lt { value: JsonNumber, target: usize },
    Le { value: JsonNumber, target: usize },
    Ge { value: JsonNumber, target: usize },
    Gt { value: JsonNumber, target: usize },
    Range { lower: JsonNumber, upper: JsonNumber, target: usize },
    InSet { values: Vec<String>, target: usize },
    Otherwise { target: usize },
}

/// One route of a randomised gate, with its weight as written.
pub struct WeightedRoute {
    pub weight: JsonNumber,
    pub target: usize,
}

/// One branch of a fan-out: the flow it opens and the node it starts at.
pub struct Branch {
    pub flow_id: String,
    pub target: usize,
}

/// One input of a convergence node: the flow it closes and the node it comes from.
pub struct ConvergeInput {
    pub flow_id: String,
    pub source: usize,
}

impl GateCase {
    /// The node the case leads to.
    pub open spec fn target_spec(&self) -> usize {
        match self {
            GateCase::Eq { target, .. } => *target,
            GateCase::Lt { target, .. } => *target,
            GateCase::Le { target, .. } => *target,
            GateCase::Ge { target, .. } => *target,
            GateCase::Gt { target, .. } => *target,
            GateCase::Range { target, .. } => *target,
            GateCase::InSet { target, .. } => *target,
            GateCase::Otherwise { target } => *target,
        }
    }

    /// Values are well formed and targets are nodes.
    pub open spec fn wf(&self, n: int) -> bool {
        &&& self.target_spec() < n
        &&& match self {
            GateCase::Eq { value, .. } => value.wf(),
            GateCase::Lt { value, .. } => value.wf(),
            GateCase::Le { value, .. } => value.wf(),
            GateCase::Ge { value, .. } => value.wf(),
            GateCase::Gt { value, .. } => value.wf(),
            GateCase::Range { lower, upper, .. } => lower.wf() && upper.wf(),
            _ => true,
        }
    }
}

impl Mapping {
    pub open spec fn wf(&self) -> bool {
        &&& self.target.wf()
        &&& (self.source is Some ==> self.source->0.wf())
        &&& (self.default is Some ==> self.default->0.wf())
    }
}

/// An optional successor is a node.
pub open spec fn next_wf(next: Option<usize>, n: int) -> bool {
    next is Some ==> next->0 < n
}

impl NodeKind {
    /// Successors are nodes and values well formed.
    pub open spec fn wf(&self, n: int) -> bool {
        match self {
            NodeKind::Task { next, .. } => next_wf(*next, n),
            NodeKind::MapSchema { mappings, next } => next_wf(*next, n) && forall|k: int| 0 <= k < mappings.len() ==> (#[trigger] mappings[k]).wf(),
            NodeKind::Deterministic { select, cases } => select.wf() && forall|k: int| 0 <= k < cases.len() ==> (#[trigger] cases[k]).wf(n),
            NodeKind::Randomised { routes } => forall|k: int| 0 <= k < routes.len() ==> (#[trigger] routes[k]).target < n && routes[k].weight.wf(),
            NodeKind::FanOut { branches } => forall|k: int| 0 <= k < branches.len() ==> (#[trigger] branches[k]).target < n,
            NodeKind::Converge { inputs, next } => next_wf(*next, n) && forall|k: int| 0 <= k < inputs.len() ==> (#[trigger] inputs[k]).source < n,
            NodeKind::Raise { .. } => true,
        }
    }
}

impl CompiledGraph {
    /// The entry, the output and every successor are nodes; values are well formed.
    pub open spec fn wf(&self) -> bool {
        &&& self.entry < self.nodes.len()
        &&& self.output < self.nodes.len()
        &&& forall|i: int| 0 <= i < self.nodes.len() ==> (#[trigger] self.nodes[i]).kind.wf(self.nodes.len() as int)
    }
}

} // verus!
