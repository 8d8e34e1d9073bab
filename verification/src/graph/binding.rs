//! Task binding: the issues for task nodes whose logical task the caller's registry lacks or
//! holds as something that cannot be called.
use vstd::prelude::*;

use super::model::{CompiledGraph, Node, NodeKind};
use crate::diagnostics::{concat_indexed, issue_views, lemma_concat_indexed_all, lemma_concat_indexed_step,
    push_issue_owned, IssueData, IssueView};
use crate::text::{concat, debug_quoted, debug_text, node_path, node_path_string, text_eq};

verus! {

/// The issue for task node `i` when its task is listed as not callable or as missing (not
/// callable first); none for other nodes.
pub open spec fn binding_issue(i: int, node: Node, missing: Seq<Seq<char>>, not_callable: Seq<Seq<char>>) -> Seq<IssueView> {
    match node.kind {
        NodeKind::Task { task, .. } => if not_callable.contains(task@) {
            seq![(node_path(i) + "/task"@, "TASK_NOT_CALLABLE"@, "registered task "@ + debug_text(task@) + " is not callable"@)]
        } else if missing.contains(task@) {
            seq![(node_path(i) + "/task"@, "TASK_MISSING"@, "registered task "@ + debug_text(task@) + " is missing"@)]
        } else {
            Seq::empty()
        },
        _ => Seq::empty(),
    }
}

pub open spec fn binding_fn(missing: Seq<Seq<char>>, not_callable: Seq<Seq<char>>) -> spec_fn(int, Node) -> Seq<IssueView> {
    |i: int, node: Node| binding_issue(i, node, missing, not_callable)
}

/// The binding issues of every task node, in index order.
pub open spec fn binding_issues(g: CompiledGraph, missing: Seq<Seq<char>>, not_callable: Seq<Seq<char>>) -> Seq<IssueView> {
    concat_indexed(g.nodes@, binding_fn(missing, not_callable))
}

/// The texts of a list of names.
pub open spec fn names_view(names: Seq<String>) -> Seq<Seq<char>> {
    names.map_values(|n: String| n@)
}

fn listed(names: &Vec<String>, name: &str) -> (result: bool)
    ensures
        result == names_view(names@).contains(name@),
{
    let mut i: usize = 0;
    while i < names.len()
        invariant
            i <= names.len(),
            forall|k: int| 0 <= k < i ==> names@[k]@ != name@,
        decreases names.len() - i,
    {
        if text_eq(names[i].as_str(), name) {
            assert(names_view(names@)[i as int] == name@);
            return true;
        }
        i = i + 1;
    }
    proof {
        if names_view(names@).contains(name@) {
            let k = choose|k: int| 0 <= k < names_view(names@).len() && names_view(names@)[k] == name@;
            assert(names@[k]@ == name@);
        }
    }
    false
}

/// The issues for the task nodes whose logical task the registry lookup found to be missing or
/// not callable: `TASK_NOT_CALLABLE` or `TASK_MISSING` at the node's `task`, in node order.
pub fn task_binding_issues(g: &CompiledGraph, missing: &Vec<String>, not_callable: &Vec<String>) -> (result: Vec<IssueData>)
    ensures
        issue_views(result@) == binding_issues(*g, names_view(missing@), names_view(not_callable@)),
{
    let ghost f = binding_fn(names_view(missing@), names_view(not_callable@));
    let mut issues: Vec<IssueData> = Vec::new();
    let mut i: usize = 0;
    assert(issue_views(issues@) =~= concat_indexed(g.nodes@.take(0), f));
    while i < g.nodes.len()
        invariant
            i <= g.nodes.len(),
            f == binding_fn(names_view(missing@), names_view(not_callable@)),
            issue_views(issues@) == concat_indexed(g.nodes@.take(i as int), f),
        decreases g.nodes.len() - i,
    {
        proof {
            lemma_concat_indexed_step(g.nodes@, i as int, f);
        }
        let ghost before = issue_views(issues@);
        match &g.nodes[i].kind {
            NodeKind::Task { task, .. } => {
                let path = concat(node_path_string(i).as_str(), "/task");
                if listed(not_callable, task.as_str()) {
                    let message = concat(concat("registered task ", debug_quoted(task.as_str()).as_str()).as_str(), " is not callable");
                    push_issue_owned(&mut issues, "TASK_NOT_CALLABLE", path, message);
                } else if listed(missing, task.as_str()) {
                    let message = concat(concat("registered task ", debug_quoted(task.as_str()).as_str()).as_str(), " is missing");
                    push_issue_owned(&mut issues, "TASK_MISSING", path, message);
                }
            },
            _ => {},
        }
        assert(issue_views(issues@) =~= concat_indexed(g.nodes@.take(i + 1), f));
        i = i + 1;
    }
    proof {
        lemma_concat_indexed_all(g.nodes@, f);
    }
    issues
}

} // verus!
