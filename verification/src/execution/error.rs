//! Why an execution stopped.
use vstd::prelude::*;

use crate::json_value::{JsonData, JsonValue};
use crate::text::{concat, debug_quoted, debug_text, owned};

verus! {

/// A mapping that could not produce its target.
#[derive(Debug)]
pub struct MappingFailure {
    pub node_id: String,
    pub target: String,
    pub source_path: Option<String>,
    pub expected_type: &'static str,
    pub reason: &'static str,
}

/// What a gate saw when it chose its route.
#[derive(Debug)]
pub struct GateSelectionContext {
    pub gate_node_id: String,
    pub selected_path: Option<String>,
    pub value_found: Option<bool>,
    pub selected_value: Option<JsonValue>,
    pub matched_operator: Option<String>,
}

/// The context of a gate choice in spec form: the identifier of its node, its selection
/// pointer, whether a value was found there, that value, and the operator of the matching case.
pub type GateView = (Seq<char>, Option<Seq<char>>, Option<bool>, Option<JsonData>, Option<Seq<char>>);

/// An optional text as data.
pub open spec fn opt_text(text: Option<String>) -> Option<Seq<char>> {
    match text {
        Some(t) => Some(t@),
        None => None,
    }
}

/// An optional gate context as data.
pub open spec fn gate_view(gate: Option<GateSelectionContext>) -> Option<GateView> {
    match gate {
        Some(c) => Some((
            c.gate_node_id@,
            opt_text(c.selected_path),
            c.value_found,
            match c.selected_value {
                Some(v) => Some(v@),
                None => None,
            },
            opt_text(c.matched_operator),
        )),
        None => None,
    }
}

/// Routing reached a raise-error node.
#[derive(Debug)]
pub struct RoutingFailure {
    pub node_id: String,
    pub message: String,
    pub gate: Option<GateSelectionContext>,
}

/// Why a call on an execution failed.
#[derive(Debug)]
pub enum ExecutionFailure {
    Mapping(MappingFailure),
    Routing(Box<RoutingFailure>),
    AlreadyStarted,
    UnknownTicket,
}

impl MappingFailure {
    /// `mapping at node {id:?} could not produce target {target:?} ({reason})`.
    pub fn describe(&self) -> (result: String)
        ensures
            result@ == "mapping at node "@ + debug_text(self.node_id@) + " could not produce target "@
                + debug_text(self.target@) + " ("@ + self.reason@ + ")"@,
    {
        let mut out = owned("mapping at node ");
        out = concat(out.as_str(), debug_quoted(self.node_id.as_str()).as_str());
        out = concat(out.as_str(), " could not produce target ");
        out = concat(out.as_str(), debug_quoted(self.target.as_str()).as_str());
        out = concat(out.as_str(), " (");
        out = concat(out.as_str(), self.reason);
        concat(out.as_str(), ")")
    }
}

impl RoutingFailure {
    /// `routing stopped at node {id:?}: {message}`.
    pub fn describe(&self) -> (result: String)
        ensures
            result@ == "routing stopped at node "@ + debug_text(self.node_id@) + ": "@ + self.message@,
    {
        let mut out = owned("routing stopped at node ");
        out = concat(out.as_str(), debug_quoted(self.node_id.as_str()).as_str());
        out = concat(out.as_str(), ": ");
        concat(out.as_str(), self.message.as_str())
    }
}

impl ExecutionFailure {
    /// The failure as a sentence.
    pub fn describe(&self) -> (result: String)
        ensures
            result@ == match self {
                ExecutionFailure::Mapping(failure) => "mapping at node "@ + debug_text(failure.node_id@)
                    + " could not produce target "@ + debug_text(failure.target@) + " ("@ + failure.reason@ + ")"@,
                ExecutionFailure::Routing(failure) => "routing stopped at node "@ + debug_text(failure.node_id@) + ": "@
                    + failure.message@,
                ExecutionFailure::AlreadyStarted => "execution has already started"@,
                ExecutionFailure::UnknownTicket => "unknown or completed task ticket"@,
            },
    {
        match self {
            ExecutionFailure::Mapping(failure) => failure.describe(),
            ExecutionFailure::Routing(failure) => failure.describe(),
            ExecutionFailure::AlreadyStarted => owned("execution has already started"),
            ExecutionFailure::UnknownTicket => owned("unknown or completed task ticket"),
        }
    }
}

impl ExecutionFailure {
    /// A routing failure, boxed.
    pub fn routing(failure: RoutingFailure) -> (result: Self)
        ensures
            result matches ExecutionFailure::Routing(f) && *f == failure,
    {
        ExecutionFailure::Routing(Box::new(failure))
    }
}

} // verus!
