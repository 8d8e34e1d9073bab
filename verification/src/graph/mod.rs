//! The workflow graph: structural and semantic assessment, compilation, and numbers.
pub mod algorithms;
pub mod binding;
pub mod clean;
pub mod compiler;
pub mod semantics;
pub mod model;
pub mod numbers;
pub mod structure;

pub use model::{JsonNumber, ValueType};
pub use numbers::{compare_numbers, json_number};

use vstd::prelude::*;

use crate::diagnostics::{issue_views, IssueData, IssueView};
use crate::json_value::{JsonData, JsonValue};

verus! {

/// `found` is what assessing `value` reports: every structural issue, in order, then the
/// semantic issues.
pub open spec fn assessment_fits(value: JsonData, found: Seq<IssueView>) -> bool {
    &&& found.len() >= structure::structure_issues(value).len()
    &&& found.take(structure::structure_issues(value).len() as int) == structure::structure_issues(value)
    &&& semantics::semantic_issues_fit(value, found.skip(structure::structure_issues(value).len() as int))
}

/// Every structural issue of a specification, then every semantic issue.
pub fn assess(value: &JsonValue) -> (issues: Vec<IssueData>)
    requires
        value.wf(),
    ensures
        assessment_fits(value@, issue_views(issues@)),
{
    let mut issues: Vec<IssueData> = Vec::new();
    structure::validate_structure(value, &mut issues);
    let ghost after = issue_views(issues@);
    assert(after =~= structure::structure_issues(value@));
    semantics::validate_semantics(value, &mut issues);
    assert(issue_views(issues@).take(after.len() as int) =~= after);
    issues
}

/// The nodes of a specification form a graph with a cycle, every reference resolves, and the
/// entry and the output each name a node.
pub open spec fn linked_with_cycle(value: JsonData) -> bool {
    match value {
        JsonData::Object(root) => match crate::json_value::member(root, "nodes"@) {
            Some(JsonData::Array(nodes)) => {
                &&& semantics::references::reference_issues(nodes).len() == 0
                &&& semantics::role_index(root, nodes, "entry"@) is Some
                &&& semantics::role_index(root, nodes, "output"@) is Some
                &&& algorithms::has_cycle(semantics::graph_of(nodes))
            },
            _ => false,
        },
        _ => false,
    }
}

/// A specification whose linked graph has a cycle is reported with a `GRAPH_CYCLE` issue.
pub proof fn lemma_cycles_are_reported(value: JsonData, found: Seq<IssueView>)
    requires
        assessment_fits(value, found),
        linked_with_cycle(value),
    ensures
        exists|k: int| 0 <= k < found.len() && (#[trigger] found[k]).1 == "GRAPH_CYCLE"@,
{
    let s = structure::structure_issues(value).len() as int;
    let sem = found.skip(s);
    let root = value->Object_0;
    let nodes = crate::json_value::member(root, "nodes"@)->0->Array_0;
    let local = semantics::local_issues(root, nodes);
    let entry = semantics::role_index(root, nodes, "entry"@)->0;
    let output = semantics::role_index(root, nodes, "output"@)->0;
    let walk = sem.skip(local.len() as int);
    let (cycles, activity) = choose|cycles: Seq<IssueView>, activity: Seq<IssueView>|
        semantics::walk_issues_fit(nodes, entry, output, #[trigger] sem.skip(local.len() as int), cycles, activity);
    let g = semantics::graph_of(nodes);
    let unreachable = crate::diagnostics::concat_indexed(nodes, semantics::unreachable_fn(g, entry));
    assert(cycles.len() > 0);
    assert(walk[unreachable.len() as int] == cycles[0]);
    let k = s + local.len() + unreachable.len();
    assert(found[k] == sem[(local.len() + unreachable.len()) as int]);
    assert(found[k].1 == "GRAPH_CYCLE"@);
}

} // verus!
