use std::sync::Arc;

use camau::execution::{Execution, ExecutionFailure, Step, TaskRequest};
use camau::graph::compiler::compile;
use camau::json_value::{Binary64, JsonValue};

fn convert(value: &serde_json::Value) -> JsonValue {
    match value {
        serde_json::Value::Null => JsonValue::Null,
        serde_json::Value::Bool(b) => JsonValue::Bool(*b),
        serde_json::Value::Number(n) => match n.as_i64() {
            Some(i) => JsonValue::Integer(i),
            None => JsonValue::Number(Binary64 { bits: n.as_f64().unwrap().to_bits() }),
        },
        serde_json::Value::String(s) => JsonValue::String(s.clone()),
        serde_json::Value::Array(items) => JsonValue::Array(items.iter().map(convert).collect()),
        serde_json::Value::Object(members) => JsonValue::Object(
            members.iter().map(|(k, v)| (k.clone(), convert(v))).collect(),
        ),
    }
}

fn parse(source: &str) -> JsonValue {
    convert(&serde_json::from_str::<serde_json::Value>(source).unwrap())
}

fn execution(specification: &str, payload: JsonValue) -> Execution {
    let graph = compile(&parse(specification)).unwrap();
    assert!(graph.is_runnable());
    Execution::new(Arc::new(graph), payload)
}

/// Steps until no token waits, the output is reached or a gate asks for a route.
fn advance(execution: &mut Execution, requests: &mut Vec<TaskRequest>) -> Result<Step, ExecutionFailure> {
    loop {
        match execution.step(requests)? {
            Step::Processed => {
                if execution.finished() {
                    return Ok(Step::Processed);
                }
            }
            other => return Ok(other),
        }
    }
}

fn object(members: Vec<(&str, JsonValue)>) -> JsonValue {
    JsonValue::Object(members.into_iter().map(|(k, v)| (k.to_owned(), v)).collect())
}

#[test]
fn task_requests_round_trip_without_python_state() {
    let mut execution = execution(
        r#"{"entry":"call","output":"call","nodes":[{"id":"call","type":"task","task":"echo"}]}"#,
        object(vec![("value", JsonValue::Integer(1))]),
    );
    execution.start().unwrap();
    let mut requests = Vec::new();
    advance(&mut execution, &mut requests).unwrap();
    assert_eq!(requests.len(), 1);
    assert_eq!(requests[0].task_name, "echo");
    let ticket = requests[0].ticket;
    execution.resume(ticket, requests[0].payload.duplicate()).unwrap();
    let mut more = Vec::new();
    advance(&mut execution, &mut more).unwrap();
    assert_eq!(execution.output(), Some(object(vec![("value", JsonValue::Integer(1))])));
}

#[test]
fn mapping_failures_own_their_context() {
    let mut execution = execution(
        r#"{"entry":"map","output":"map","nodes":[{"id":"map","type":"map-schema","mappings":[{"target":"/name","path-to-source":"/missing","type":"string"}]}]}"#,
        JsonValue::Object(Vec::new()),
    );
    execution.start().unwrap();
    let mut requests = Vec::new();
    let failure = advance(&mut execution, &mut requests).err().unwrap();
    let ExecutionFailure::Mapping(failure) = failure else {
        panic!("expected mapping failure");
    };
    assert_eq!(failure.node_id, "map");
    assert_eq!(failure.target, "/name");
    assert_eq!(failure.source_path.as_deref(), Some("/missing"));
    assert_eq!(failure.reason, "source_missing");
}

#[test]
fn an_execution_starts_once_and_knows_its_tickets() {
    let mut execution = execution(
        r#"{"entry":"call","output":"call","nodes":[{"id":"call","type":"task","task":"echo"}]}"#,
        JsonValue::Object(Vec::new()),
    );
    execution.start().unwrap();
    assert!(matches!(execution.start(), Err(ExecutionFailure::AlreadyStarted)));
    assert!(matches!(execution.resume(7, JsonValue::Null), Err(ExecutionFailure::UnknownTicket)));
    let mut requests = Vec::new();
    advance(&mut execution, &mut requests).unwrap();
    let pending = execution.pending_task(requests[0].ticket).unwrap();
    assert_eq!(pending.task_name, "echo");
    assert_eq!(pending.node, 0);
    assert!(execution.pending_task(requests[0].ticket + 1).is_none());
    execution.resume(requests[0].ticket, JsonValue::Object(Vec::new())).unwrap();
    assert!(execution.pending_task(requests[0].ticket).is_none());
    assert!(matches!(
        execution.resume(requests[0].ticket, JsonValue::Null),
        Err(ExecutionFailure::UnknownTicket)
    ));
}

#[test]
fn gates_route_by_their_first_accepting_case() {
    let spec = r#"{"entry":"gate","output":"done","nodes":[
        {"id":"gate","type":"deterministic-gate","select":"/amount","cases":[
            {"operator":"lt","value":10,"target":"small"},
            {"operator":"lt","value":100,"target":"medium"},
            {"operator":"otherwise","target":"stop"}]},
        {"id":"small","type":"map-schema","mappings":[{"target":"/size","default":"small","type":"string"}],"next":"done"},
        {"id":"medium","type":"map-schema","mappings":[{"target":"/size","default":"medium","type":"string"}],"next":"done"},
        {"id":"done","type":"map-schema","mappings":[{"target":"/result","path-to-source":"/size","type":"string"}]},
        {"id":"stop","type":"raise-error","message":"too large"}]}"#;
    let mut small = execution(spec, object(vec![("amount", JsonValue::Integer(5))]));
    small.start().unwrap();
    advance(&mut small, &mut Vec::new()).unwrap();
    assert_eq!(small.output(), Some(object(vec![("result", JsonValue::String("small".to_owned()))])));

    let mut medium = execution(spec, object(vec![("amount", JsonValue::Integer(50))]));
    medium.start().unwrap();
    advance(&mut medium, &mut Vec::new()).unwrap();
    assert_eq!(medium.output(), Some(object(vec![("result", JsonValue::String("medium".to_owned()))])));

    let mut large = execution(spec, object(vec![("amount", JsonValue::Integer(500))]));
    large.start().unwrap();
    let failure = advance(&mut large, &mut Vec::new()).err().unwrap();
    let ExecutionFailure::Routing(failure) = failure else {
        panic!("expected routing failure");
    };
    assert_eq!(failure.node_id, "stop");
    assert_eq!(failure.message, "too large");
    let gate = failure.gate.as_ref().unwrap();
    assert_eq!(gate.gate_node_id, "gate");
    assert_eq!(gate.selected_path.as_deref(), Some("/amount"));
    assert_eq!(gate.value_found, Some(true));
    assert_eq!(gate.selected_value, Some(JsonValue::Integer(500)));
    assert_eq!(gate.matched_operator.as_deref(), Some("otherwise"));
    assert_eq!(
        ExecutionFailure::Routing(failure).describe(),
        "routing stopped at node \"stop\": too large"
    );
}

#[test]
fn fan_out_branches_converge_into_one_value() {
    let spec = r#"{"entry":"fan","output":"join","nodes":[
        {"id":"fan","type":"fan-out","branches":[{"id":"left","target":"call-left"},{"id":"right","target":"call-right"}]},
        {"id":"call-left","type":"task","task":"left-task","next":"join"},
        {"id":"call-right","type":"task","task":"right-task","next":"join"},
        {"id":"join","type":"converge","inputs":{"left":"call-left","right":"call-right"}}]}"#;
    let mut run = execution(spec, JsonValue::Object(Vec::new()));
    run.start().unwrap();
    let mut requests = Vec::new();
    advance(&mut run, &mut requests).unwrap();
    assert_eq!(requests.len(), 2);
    assert_eq!(requests[0].task_name, "left-task");
    assert_eq!(requests[1].task_name, "right-task");
    assert_ne!(requests[0].ticket, requests[1].ticket);
    run.resume(requests[1].ticket, object(vec![("r", JsonValue::Integer(2))])).unwrap();
    advance(&mut run, &mut Vec::new()).unwrap();
    assert!(!run.finished());
    run.resume(requests[0].ticket, object(vec![("l", JsonValue::Integer(1))])).unwrap();
    advance(&mut run, &mut Vec::new()).unwrap();
    assert_eq!(
        run.output(),
        Some(object(vec![
            ("left", object(vec![("l", JsonValue::Integer(1))])),
            ("right", object(vec![("r", JsonValue::Integer(2))])),
        ]))
    );
}

#[test]
fn randomised_gates_wait_for_the_chosen_route() {
    let spec = r#"{"entry":"gate","output":"done","nodes":[
        {"id":"gate","type":"randomised-gate","routes":[{"weight":1,"target":"a"},{"weight":1,"target":"b"}]},
        {"id":"a","type":"map-schema","mappings":[{"target":"/route","default":"a","type":"string"}],"next":"done"},
        {"id":"b","type":"map-schema","mappings":[{"target":"/route","default":"b","type":"string"}],"next":"done"},
        {"id":"done","type":"map-schema","mappings":[{"target":"/route","path-to-source":"/route","type":"string"}]}]}"#;
    let mut run = execution(spec, JsonValue::Object(Vec::new()));
    run.start().unwrap();
    let step = advance(&mut run, &mut Vec::new()).unwrap();
    let Step::Choice(choice) = step else {
        panic!("expected a route choice");
    };
    assert_eq!(choice.node, 0);
    assert_eq!(choice.routes, 2);
    assert!(!run.choose_route(2));
    assert!(run.choose_route(1));
    assert!(!run.choose_route(0));
    advance(&mut run, &mut Vec::new()).unwrap();
    assert_eq!(run.output(), Some(object(vec![("route", JsonValue::String("b".to_owned()))])));
}

#[test]
fn failures_describe_themselves() {
    let mut run = execution(
        r#"{"entry":"map","output":"map","nodes":[{"id":"map","type":"map-schema","mappings":[{"target":"/name","path-to-source":"/missing","type":"string"}]}]}"#,
        JsonValue::Object(Vec::new()),
    );
    run.start().unwrap();
    let failure = advance(&mut run, &mut Vec::new()).err().unwrap();
    assert_eq!(
        failure.describe(),
        "mapping at node \"map\" could not produce target \"/name\" (source_missing)"
    );
    assert_eq!(ExecutionFailure::AlreadyStarted.describe(), "execution has already started");
    assert_eq!(ExecutionFailure::UnknownTicket.describe(), "unknown or completed task ticket");
}

#[test]
fn raise_after_a_randomised_gate_reports_only_the_gate() {
    let spec = r#"{"entry":"gate","output":"done","nodes":[
        {"id":"gate","type":"randomised-gate","routes":[{"weight":1,"target":"done"},{"weight":1,"target":"stop"}]},
        {"id":"done","type":"task","task":"finish"},
        {"id":"stop","type":"raise-error","message":"stopped"}]}"#;
    let mut run = execution(spec, JsonValue::Object(Vec::new()));
    run.start().unwrap();
    assert!(matches!(advance(&mut run, &mut Vec::new()).unwrap(), Step::Choice(_)));
    assert!(run.choose_route(1));
    let ExecutionFailure::Routing(failure) = advance(&mut run, &mut Vec::new()).err().unwrap() else {
        panic!("expected routing failure");
    };
    let gate = failure.gate.as_ref().unwrap();
    assert_eq!(gate.gate_node_id, "gate");
    assert_eq!(gate.selected_path, None);
    assert_eq!(gate.value_found, None);
    assert_eq!(gate.selected_value, None);
    assert_eq!(gate.matched_operator, None);
}

#[test]
fn raise_after_a_missing_selection_reports_it_was_not_found() {
    let spec = r#"{"entry":"gate","output":"done","nodes":[
        {"id":"gate","type":"deterministic-gate","select":"/kind","cases":[
            {"operator":"eq","value":"go","target":"done"},
            {"operator":"otherwise","target":"stop"}]},
        {"id":"done","type":"task","task":"finish"},
        {"id":"stop","type":"raise-error","message":"no kind"}]}"#;
    let mut run = execution(spec, JsonValue::Object(Vec::new()));
    run.start().unwrap();
    let ExecutionFailure::Routing(failure) = advance(&mut run, &mut Vec::new()).err().unwrap() else {
        panic!("expected routing failure");
    };
    let gate = failure.gate.as_ref().unwrap();
    assert_eq!(gate.selected_path.as_deref(), Some("/kind"));
    assert_eq!(gate.value_found, Some(false));
    assert_eq!(gate.selected_value, None);
    assert_eq!(gate.matched_operator.as_deref(), Some("otherwise"));
}

#[test]
fn raise_behind_an_intermediate_node_reports_no_gate() {
    let spec = r#"{"entry":"gate","output":"done","nodes":[
        {"id":"gate","type":"deterministic-gate","select":"/kind","cases":[
            {"operator":"eq","value":"go","target":"done"},
            {"operator":"otherwise","target":"shape"}]},
        {"id":"shape","type":"map-schema","mappings":[{"target":"/kind","default":"x","type":"string"}],"next":"stop"},
        {"id":"done","type":"task","task":"finish"},
        {"id":"stop","type":"raise-error","message":"stopped"}]}"#;
    let mut run = execution(spec, JsonValue::Object(Vec::new()));
    run.start().unwrap();
    let ExecutionFailure::Routing(failure) = advance(&mut run, &mut Vec::new()).err().unwrap() else {
        panic!("expected routing failure");
    };
    assert_eq!(failure.node_id, "stop");
    assert!(failure.gate.is_none());
}
