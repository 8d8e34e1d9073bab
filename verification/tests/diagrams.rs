use camau::diagram::{markdown_code, markdown_text, mermaid_text, render_markdown, NumberTexts};
use camau::graph::compiler::compile;
use camau::graph::model::{CompiledGraph, NodeKind};
use camau::graph::{assess, JsonNumber};
use camau::json_value::{Binary64, JsonValue};

fn convert(value: &serde_json::Value) -> JsonValue {
    match value {
        serde_json::Value::Null => JsonValue::Null,
        serde_json::Value::Bool(b) => JsonValue::Bool(*b),
        serde_json::Value::Number(n) => match n.as_i64() {
            Some(i) => JsonValue::Integer(i),
            None => JsonValue::Number(Binary64 { bits: n.as_f64().unwrap().to_bits() }),
        },
        serde_json::Value::String(s) => JsonValue::String(s.clone()),
        serde_json::Value::Array(items) => JsonValue::Array(items.iter().map(convert).collect()),
        serde_json::Value::Object(members) => JsonValue::Object(
            members.iter().map(|(k, v)| (k.clone(), convert(v))).collect(),
        ),
    }
}

fn compiled(source: &str) -> CompiledGraph {
    let value = convert(&serde_json::from_str::<serde_json::Value>(source).unwrap());
    let issues = assess(&value);
    assert!(issues.is_empty(), "{issues:?}");
    compile(&value).unwrap()
}

fn weight(number: JsonNumber) -> f64 {
    match number {
        JsonNumber::Integer(i) => i as f64,
        JsonNumber::Float(b) => f64::from_bits(b.bits),
    }
}

/// Route labels as percentages of each gate's scaled total.
fn number_texts(graph: &CompiledGraph) -> NumberTexts {
    let routes = graph
        .nodes
        .iter()
        .map(|node| match &node.kind {
            NodeKind::Randomised { routes } => {
                let scale = routes.iter().map(|r| weight(r.weight)).fold(0.0_f64, f64::max);
                let total: f64 = routes.iter().map(|r| weight(r.weight) / scale).sum();
                routes
                    .iter()
                    .map(|r| {
                        let percentage = (weight(r.weight) / scale) / total * 100.0;
                        if (percentage - percentage.round()).abs() < 1e-9 {
                            format!("{}%", percentage.round() as u64)
                        } else {
                            format!("{percentage:.1}%")
                        }
                    })
                    .collect()
            }
            _ => Vec::new(),
        })
        .collect();
    NumberTexts { floats: Vec::new(), routes }
}

#[test]
fn renders_routes_convergence_and_user_text_safely() {
    let graph = compiled(
        r#"{
        "entry":"choose","output":"join","nodes":[
            {"id":"choose","type":"deterministic-gate","select":"/kind","cases":[
                {"operator":"eq","value":"a|b","target":"split"},
                {"operator":"otherwise","target":"stop"}
            ]},
            {"id":"split","type":"fan-out","branches":[
                {"id":"left","target":"call-left"},{"id":"right","target":"call-right"}
            ]},
            {"id":"call-left","type":"task","task":"left-task","next":"join"},
            {"id":"call-right","type":"task","task":"right-task","next":"join"},
            {"id":"join","type":"converge","inputs":{"left":"call-left","right":"call-right"}},
            {"id":"stop","type":"raise-error","message":"not <allowed> | retry"}
        ]
    }"#,
    );
    let markdown = render_markdown(&graph, &number_texts(&graph));
    assert!(markdown.starts_with("# Camau workflow graph\n\n```mermaid"));
    assert!(markdown.contains("branch: left"));
    assert!(markdown.contains("flow: right"));
    assert!(markdown.contains("&quot;a&#124;b&quot;"));
    assert!(markdown.contains("not &lt;allowed&gt; &#124; retry"));
}

#[test]
fn normalises_large_randomised_weights_without_overflow() {
    let graph = compiled(
        r#"{
        "entry":"choose","output":"done","nodes":[
            {"id":"choose","type":"randomised-gate","routes":[
                {"weight":1e308,"target":"left"},{"weight":1e308,"target":"right"}
            ]},
            {"id":"left","type":"task","task":"left-task","next":"done"},
            {"id":"right","type":"task","task":"right-task","next":"done"},
            {"id":"done","type":"task","task":"finish"}
        ]
    }"#,
    );
    let markdown = render_markdown(&graph, &number_texts(&graph));
    assert_eq!(markdown.matches("-. \"50%\" .->").count(), 2);
}

#[test]
fn label_escapes_neutralise_markup() {
    assert_eq!(mermaid_text("\"a|b\""), "&quot;a&#124;b&quot;");
    assert_eq!(markdown_text("<x> | y"), "&lt;x&gt; &#124; y");
    assert_eq!(markdown_code("a`b"), "<code>a&#96;b</code>");
}

#[test]
fn gate_values_are_written_as_json() {
    let graph = compiled(
        r#"{
        "entry":"choose","output":"done","nodes":[
            {"id":"choose","type":"deterministic-gate","select":"/kind","cases":[
                {"operator":"eq","value":"say \"hi\"","target":"done"},
                {"operator":"lt","value":2.5,"target":"done"},
                {"operator":"otherwise","target":"done"}
            ]},
            {"id":"done","type":"task","task":"finish"}
        ]
    }"#,
    );
    let texts = NumberTexts {
        floats: vec![(2.5_f64.to_bits(), "2.5".to_owned())],
        routes: Vec::new(),
    };
    let markdown = render_markdown(&graph, &texts);
    assert!(markdown.contains("&quot;say \\&quot;hi\\&quot;&quot;"), "{markdown}");
    assert!(markdown.contains("2.5"), "{markdown}");
}

#[test]
fn a_single_task_renders_the_whole_document() {
    let graph = compiled(r#"{"entry":"call","output":"call","nodes":[{"id":"call","type":"task","task":"echo"}]}"#);
    let markdown = render_markdown(&graph, &number_texts(&graph));
    let expected = [
        "# Camau workflow graph\n\n```mermaid\nflowchart TD\n",
        "    input([\"Input\"]) --> n0\n",
        "    n0[\"call<br/><small>task</small>\"]\n",
        "    n0 --> output([\"Output\"])\n",
        "    classDef boundary stroke-width:3px\n",
        "    classDef failure stroke:#c62828,stroke-width:2px\n",
        "    class input,output boundary\n",
        "```\n\n## How to read this graph\n\n",
        "- Routing starts at <code>call</code> and succeeds at <code>call</code>.\n",
        "- Dotted arrows are mutually exclusive: exactly one route is active. Thick arrows belong to concurrently active branches. Solid arrows are sequential continuation.\n",
        "- Diamond nodes select one route. Hexagonal fan-out nodes start every branch concurrently. Rounded convergence nodes wait for every labelled input.\n",
        "- A red failure node stops the run with `GWALL`; it does not lead to the successful output.\n\n",
        "## Node details\n\n| Node | Behaviour |\n|---|---|\n",
        "| <code>call</code> | Calls task <code>echo</code>. |\n",
    ]
    .concat();
    assert_eq!(markdown, expected);
}

#[test]
fn edges_are_styled_by_their_ends() {
    let graph = compiled(
        r#"{
        "entry":"choose","output":"join","nodes":[
            {"id":"choose","type":"deterministic-gate","select":"/kind","cases":[
                {"operator":"in_set","values":["a","b"],"target":"split"},
                {"operator":"otherwise","target":"stop"}
            ]},
            {"id":"split","type":"fan-out","branches":[
                {"id":"left","target":"call-left"},{"id":"right","target":"call-right"}
            ]},
            {"id":"call-left","type":"task","task":"left-task","next":"join"},
            {"id":"call-right","type":"task","task":"right-task","next":"join"},
            {"id":"join","type":"converge","inputs":{"left":"call-left","right":"call-right"}},
            {"id":"stop","type":"raise-error","message":"no"}
        ]
    }"#,
    );
    let markdown = render_markdown(&graph, &number_texts(&graph));
    assert!(markdown.contains("    n0 -. \"one of &quot;a&quot;, &quot;b&quot;\" .-> n1\n"), "{markdown}");
    assert!(markdown.contains("    n0 -. \"otherwise\" .-> n5\n"), "{markdown}");
    assert!(markdown.contains("    n1 == \"branch: left\" ==> n2\n"), "{markdown}");
    assert!(markdown.contains("    n2 == \"flow: left\" ==> n4\n"), "{markdown}");
    assert!(markdown.contains("    class n5 failure\n"), "{markdown}");
    assert!(markdown.contains("| <code>join</code> | Waits for <code>left</code> from <code>call-left</code>, <code>right</code> from <code>call-right</code> and creates an object keyed by those flow IDs. |"), "{markdown}");
    assert!(markdown.contains("Stops routing with `GWALL`: no."), "{markdown}");
}
