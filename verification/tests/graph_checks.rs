use std::cmp::Ordering;

use camau::diagnostics::IssueData;
use camau::graph::compiler::compile;
use camau::graph::model::NodeKind;
use camau::graph::binding::task_binding_issues;
use camau::graph::semantics::activity::validate_activity;
use camau::graph::semantics::gate_validation::validate_gate_overlaps;
use camau::graph::semantics::mapping_validation::validate_mapping_targets;
use camau::graph::semantics::ids::index_ids;
use camau::graph::semantics::references::link_nodes;
use camau::graph::{assess, compare_numbers, JsonNumber};
use camau::json_value::{Binary64, JsonValue};

fn convert(value: &serde_json::Value) -> JsonValue {
    match value {
        serde_json::Value::Null => JsonValue::Null,
        serde_json::Value::Bool(b) => JsonValue::Bool(*b),
        serde_json::Value::Number(n) => match n.as_i64() {
            Some(i) => JsonValue::Integer(i),
            None => JsonValue::Number(Binary64 { bits: n.as_f64().unwrap().to_bits() }),
        },
        serde_json::Value::String(s) => JsonValue::String(s.clone()),
        serde_json::Value::Array(items) => JsonValue::Array(items.iter().map(convert).collect()),
        serde_json::Value::Object(members) => JsonValue::Object(
            members.iter().map(|(k, v)| (k.clone(), convert(v))).collect(),
        ),
    }
}

fn parse(source: &str) -> JsonValue {
    convert(&serde_json::from_str::<serde_json::Value>(source).unwrap())
}

fn float(value: f64) -> JsonNumber {
    JsonNumber::Float(Binary64 { bits: value.to_bits() })
}

fn codes(issues: &[IssueData]) -> Vec<String> {
    issues.iter().map(|issue| issue.code.clone()).collect()
}

fn run_activity(source: &str) -> (Vec<IssueData>, usize) {
    let value = parse(source);
    let root = value.object().unwrap();
    let nodes = root
        .iter()
        .find(|(key, _)| key == "nodes")
        .and_then(|(_, v)| v.array())
        .unwrap();
    let entry_id = root.iter().find(|(key, _)| key == "entry").and_then(|(_, v)| v.string()).unwrap();
    let entry = nodes
        .iter()
        .position(|node| {
            node.object().unwrap().iter().any(|(k, v)| k == "id" && v.string() == Some(entry_id))
        })
        .unwrap();
    let mut scratch = Vec::new();
    let ids = index_ids(nodes, &mut scratch);
    let (edges, _) = link_nodes(nodes, &ids, &mut scratch);
    let mut issues = Vec::new();
    let max_contexts = validate_activity(nodes, &edges, &ids, entry, &mut issues);
    (issues, max_contexts)
}

#[test]
fn integer_float_comparison_is_exact_at_binary64_boundary() {
    assert_eq!(
        compare_numbers(JsonNumber::Integer(9_007_199_254_740_993), float(9_007_199_254_740_992.0)),
        Ordering::Greater
    );
    assert_eq!(
        compare_numbers(JsonNumber::Integer(i64::MAX), float(9_223_372_036_854_775_808.0)),
        Ordering::Less
    );
}

#[test]
fn number_comparison_orders_mixed_values() {
    assert_eq!(compare_numbers(JsonNumber::Integer(2), JsonNumber::Integer(3)), Ordering::Less);
    assert_eq!(compare_numbers(float(2.5), JsonNumber::Integer(2)), Ordering::Greater);
    assert_eq!(compare_numbers(float(-0.0), JsonNumber::Integer(0)), Ordering::Equal);
    assert_eq!(compare_numbers(float(0.0), float(-0.0)), Ordering::Equal);
    assert_eq!(compare_numbers(float(-1.5), float(-1.25)), Ordering::Less);
    assert_eq!(compare_numbers(JsonNumber::Integer(i64::MIN), float(-9_223_372_036_854_775_808.0)), Ordering::Equal);
}

#[test]
fn ten_thousand_node_graph_assesses_iteratively() {
    let length = 10_000;
    let nodes = (0..length)
        .map(|index| {
            if index + 1 == length {
                format!(r#"{{"id":"n{index}","type":"task","task":"task"}}"#)
            } else {
                format!(r#"{{"id":"n{index}","type":"task","task":"task","next":"n{}"}}"#, index + 1)
            }
        })
        .collect::<Vec<_>>()
        .join(",");
    let source = format!(r#"{{"entry":"n0","output":"n{}","nodes":[{nodes}]}}"#, length - 1);
    assert!(serde_json::from_str::<serde_json::Value>(&source).is_ok());
    assert!(assess(&parse(&source)).is_empty());
}

#[test]
fn cycles_are_rejected() {
    let source = r#"{"entry":"n0","output":"n1","nodes":[
        {"id":"n0","type":"task","task":"task","next":"n1"},
        {"id":"n1","type":"task","task":"task","next":"n0"}]}"#;
    assert!(codes(&assess(&parse(source))).contains(&"GRAPH_CYCLE".to_owned()));
}

#[test]
fn fan_out_flows_converge_without_issues() {
    let source = r#"{"entry":"fan","output":"join","nodes":[
        {"id":"fan","type":"fan-out","branches":[{"id":"f0","target":"t0"},{"id":"f1","target":"t1"},{"id":"f2","target":"t2"}]},
        {"id":"t0","type":"task","task":"task-0","next":"join"},
        {"id":"t1","type":"task","task":"task-1","next":"join"},
        {"id":"t2","type":"task","task":"task-2","next":"join"},
        {"id":"join","type":"converge","inputs":{"f0":"t0","f1":"t1","f2":"t2"}}]}"#;
    let issues = assess(&parse(source));
    assert!(issues.is_empty(), "{:?}", codes(&issues));
}

#[test]
fn missing_references_and_schema_errors_are_reported() {
    let source = r#"{"entry":"a","output":"a","nodes":[{"id":"a","type":"task","task":"t","next":"nowhere"}]}"#;
    assert!(codes(&assess(&parse(source))).contains(&"REFERENCE_MISSING".to_owned()));
    let missing = r#"{"entry":"a","nodes":[{"id":"a","type":"task","task":"t"}]}"#;
    assert!(codes(&assess(&parse(missing))).contains(&"SCHEMA_REQUIRED".to_owned()));
    let duplicate = r#"{"entry":"a","output":"a","nodes":[{"id":"a","type":"task","task":"t"},{"id":"a","type":"task","task":"t"}]}"#;
    assert!(codes(&assess(&parse(duplicate))).contains(&"ID_COLLISION".to_owned()));
}

#[test]
fn positive_weights_compile_to_their_routes() {
    let source = r#"{"entry":"gate","output":"done","nodes":[
        {"id":"gate","type":"randomised-gate","routes":[{"weight":3,"target":"t0"},{"weight":1.5,"target":"t1"}]},
        {"id":"t0","type":"task","task":"task-0","next":"done"},
        {"id":"t1","type":"task","task":"task-1","next":"done"},
        {"id":"done","type":"map-schema","mappings":[{"target":"/ok","default":true,"type":"boolean"}]}]}"#;
    let value = parse(source);
    assert!(assess(&value).is_empty());
    let graph = compile(&value).unwrap();
    let NodeKind::Randomised { routes } = &graph.nodes[graph.entry].kind else {
        panic!("entry did not compile as randomised gate");
    };
    assert_eq!(routes.len(), 2);
    assert_eq!(routes[0].weight, JsonNumber::Integer(3));
    assert_eq!(routes[1].weight, float(1.5));
    assert_eq!(routes[1].target, 2);
    assert!(graph.is_runnable());
}

#[test]
fn invalid_specifications_do_not_compile() {
    let source = r#"{"entry":"nowhere","output":"a","nodes":[{"id":"a","type":"task","task":"t"}]}"#;
    assert!(compile(&parse(source)).is_none());
    let unknown = r#"{"entry":"a","output":"a","nodes":[{"id":"a","type":"teleport"}]}"#;
    assert!(compile(&parse(unknown)).is_none());
    let dangling = r#"{"entry":"a","output":"a","nodes":[{"id":"a","type":"task","task":"t","next":"nowhere"}]}"#;
    let graph = compile(&parse(dangling)).unwrap();
    assert!(matches!(graph.nodes[0].kind, NodeKind::Task { next: None, .. }));
}

#[test]
fn branch_local_gate_constraint_is_compatible_with_unconstrained_sibling() {
    let source = r#"{
        "entry":"fan","output":"join","nodes":[
            {"id":"fan","type":"fan-out","branches":[
                {"id":"left-flow","target":"gate"},{"id":"right-flow","target":"right"}
            ]},
            {"id":"gate","type":"deterministic-gate","select":"/kind","cases":[
                {"operator":"eq","value":"continue","target":"left"},
                {"operator":"otherwise","target":"stop"}
            ]},
            {"id":"left","type":"task","task":"left","next":"join"},
            {"id":"right","type":"task","task":"right","next":"join"},
            {"id":"join","type":"converge","inputs":{"left-flow":"left","right-flow":"right"}},
            {"id":"stop","type":"raise-error","message":"stopped"}
        ]
    }"#;
    let (issues, _) = run_activity(source);
    assert!(!issues.iter().any(|issue| issue.code == "CONVERGE_ACTIVITY"));
}

#[test]
fn mutually_exclusive_gate_routes_cannot_converge() {
    let source = r#"{
        "entry":"gate","output":"join","nodes":[
            {"id":"gate","type":"deterministic-gate","select":"/kind","cases":[
                {"operator":"eq","value":"left","target":"left"},
                {"operator":"otherwise","target":"right"}
            ]},
            {"id":"left","type":"task","task":"left","next":"join"},
            {"id":"right","type":"task","task":"right","next":"join"},
            {"id":"join","type":"converge","inputs":{"left":"left","right":"right"}}
        ]
    }"#;
    let (issues, _) = run_activity(source);
    assert!(issues.iter().any(|issue| issue.code == "CONVERGE_ACTIVITY"));
}

#[test]
fn sequential_exclusive_rejoins_keep_activity_state_bounded() {
    let gate_count = 32;
    let mut nodes = Vec::new();
    for index in 0..gate_count {
        nodes.push(format!(
            r#"{{"id":"gate-{index}","type":"deterministic-gate","select":"/choice","cases":[{{"operator":"eq","value":{index},"target":"left-{index}"}},{{"operator":"otherwise","target":"right-{index}"}}]}}"#
        ));
        nodes.push(format!(r#"{{"id":"left-{index}","type":"task","task":"left","next":"merge-{index}"}}"#));
        nodes.push(format!(r#"{{"id":"right-{index}","type":"task","task":"right","next":"merge-{index}"}}"#));
        let next = if index + 1 == gate_count {
            String::new()
        } else {
            format!(r#","next":"gate-{}""#, index + 1)
        };
        nodes.push(format!(r#"{{"id":"merge-{index}","type":"task","task":"merge"{next}}}"#));
    }
    let source = format!(
        r#"{{"entry":"gate-0","output":"merge-{}","nodes":[{}]}}"#,
        gate_count - 1,
        nodes.join(",")
    );
    let (issues, max_contexts) = run_activity(&source);
    assert!(issues.is_empty(), "{:?}", codes(&issues));
    assert!(max_contexts <= 2);
}

#[test]
fn a_node_that_continues_to_itself_is_a_cycle() {
    let source = r#"{"entry":"n0","output":"n0","nodes":[{"id":"n0","type":"task","task":"task","next":"n0"}]}"#;
    assert!(codes(&assess(&parse(source))).contains(&"GRAPH_CYCLE".to_owned()));
}

#[test]
fn longer_cycles_are_rejected() {
    for length in [2usize, 3, 7, 40] {
        let nodes = (0..length)
            .map(|index| format!(r#"{{"id":"n{index}","type":"task","task":"task","next":"n{}"}}"#, (index + 1) % length))
            .collect::<Vec<_>>()
            .join(",");
        let source = format!(r#"{{"entry":"n0","output":"n{}","nodes":[{nodes}]}}"#, length - 1);
        assert!(codes(&assess(&parse(&source))).contains(&"GRAPH_CYCLE".to_owned()), "{length}");
    }
}

#[test]
fn acyclic_diamonds_are_not_cycles() {
    let source = r#"{"entry":"g","output":"done","nodes":[
        {"id":"g","type":"deterministic-gate","select":"/k","cases":[{"operator":"eq","value":1,"target":"a"},{"operator":"otherwise","target":"b"}]},
        {"id":"a","type":"task","task":"a","next":"done"},
        {"id":"b","type":"task","task":"b","next":"done"},
        {"id":"done","type":"task","task":"done"}]}"#;
    let issues = assess(&parse(source));
    assert!(issues.is_empty(), "{:?}", codes(&issues));
}

#[test]
fn clean_specifications_compile() {
    let specs = [
        r#"{"entry":"call","output":"call","nodes":[{"id":"call","type":"task","task":"echo"}]}"#,
        r#"{"entry":"gate","output":"done","nodes":[
            {"id":"gate","type":"deterministic-gate","select":"/kind","cases":[
                {"operator":"in_set","values":["a","b"],"target":"done"},
                {"operator":"in_range","lower":1,"upper":2.5,"target":"done"},
                {"operator":"otherwise","target":"stop"}]},
            {"id":"done","type":"map-schema","mappings":[{"target":"/x~1y","path-to-source":"","type":"object"}]},
            {"id":"stop","type":"raise-error","message":"no"}]}"#,
        r#"{"entry":"fan","output":"join","nodes":[
            {"id":"fan","type":"fan-out","branches":[{"id":"left","target":"l"},{"id":"right","target":"r"}]},
            {"id":"l","type":"task","task":"left","next":"join"},
            {"id":"r","type":"task","task":"right","next":"join"},
            {"id":"join","type":"converge","inputs":{"left":"l","right":"r"}}]}"#,
    ];
    for spec in specs {
        let value = parse(spec);
        let issues = assess(&value);
        assert!(issues.is_empty(), "{:?}", codes(&issues));
        assert!(compile(&value).is_some());
    }
}

#[test]
fn mapping_target_clashes_are_found_on_any_node() {
    let node = parse(r#"{"mappings":[{"target":"/user"},{"target":"/username"},{"target":"/user/name"}]}"#);
    let mut issues = Vec::new();
    validate_mapping_targets(&node, 4, &mut issues);
    assert_eq!(issues.len(), 1);
    assert_eq!(issues[0].code, "MAPPING_TARGET");
    assert_eq!(issues[0].path, "/nodes/4/mappings/2/target");
}

#[test]
fn case_overlaps_are_found_on_any_node() {
    let node = parse(r#"{"cases":[{"operator":"le","value":5,"target":"a"},{"operator":"ge","value":5,"target":"b"},{"operator":"otherwise","target":"c"}]}"#);
    let mut issues = Vec::new();
    validate_gate_overlaps(&node, 0, &mut issues);
    assert_eq!(issues.len(), 1);
    assert_eq!(issues[0].code, "GATE_OVERLAP");
    assert_eq!(issues[0].path, "/nodes/0/cases/1");
    assert_eq!(issues[0].message, "case overlaps earlier case at index 0");
    let open = parse(r#"{"cases":[{"operator":"lt","value":5,"target":"a"},{"operator":"ge","value":5,"target":"b"},{"operator":"otherwise","target":"c"}]}"#);
    let mut none = Vec::new();
    validate_gate_overlaps(&open, 0, &mut none);
    assert!(none.is_empty());
}

#[test]
fn independent_cycles_are_reported_beside_missing_references() {
    let value = parse(r#"{"entry":"s","output":"o","nodes":[
        {"id":"s","type":"task","task":"t","next":"o"},
        {"id":"o","type":"task","task":"t"},
        {"id":"x","type":"task","task":"t","next":"y"},
        {"id":"y","type":"task","task":"t","next":"x"},
        {"id":"z","type":"task","task":"t","next":"q"}]}"#);
    let issues = assess(&value);
    assert!(issues.iter().any(|issue| issue.code == "REFERENCE_MISSING" && issue.path == "/nodes/4/next"));
    let cycles: Vec<_> = issues.iter().filter(|issue| issue.code == "GRAPH_CYCLE").collect();
    assert_eq!(cycles.len(), 1);
    assert_eq!(cycles[0].path, "/nodes/2/id");
}

#[test]
fn one_cycle_issue_at_the_first_identifier_of_the_component() {
    let value = parse(r#"{"entry":"s","output":"o","nodes":[
        {"id":"s","type":"task","task":"t","next":"b"},
        {"id":"b","type":"task","task":"t","next":"a"},
        {"id":"a","type":"task","task":"t","next":"b"},
        {"id":"o","type":"task","task":"t"}]}"#);
    let issues = assess(&value);
    let cycles: Vec<_> = issues.iter().filter(|issue| issue.code == "GRAPH_CYCLE").collect();
    assert_eq!(cycles.len(), 1);
    assert_eq!(cycles[0].path, "/nodes/2/id");
}

#[test]
fn unbound_tasks_are_reported_at_their_task() {
    let graph = compile(&parse(r#"{"entry":"a","output":"c","nodes":[
        {"id":"a","type":"task","task":"first","next":"b"},
        {"id":"b","type":"task","task":"second","next":"c"},
        {"id":"c","type":"task","task":"third"}]}"#)).unwrap();
    let issues = task_binding_issues(&graph, &vec!["first".to_owned()], &vec!["third".to_owned()]);
    assert_eq!(issues.len(), 2);
    assert_eq!(issues[0].code, "TASK_MISSING");
    assert_eq!(issues[0].path, "/nodes/0/task");
    assert_eq!(issues[0].message, "registered task \"first\" is missing");
    assert_eq!(issues[1].code, "TASK_NOT_CALLABLE");
    assert_eq!(issues[1].path, "/nodes/2/task");
    assert_eq!(issues[1].message, "registered task \"third\" is not callable");
}
