//! Map-schema targets that repeat or nest inside an earlier target.
use vstd::prelude::*;

use super::{flat_indexed, lemma_flat_indexed_all, lemma_flat_indexed_step};
use super::ids::{field_of, node_field, node_text, text_of};
use crate::diagnostics::{concat_indexed, issue_views, lemma_concat_indexed_all, lemma_concat_indexed_step,
    push_issue, IssueData, IssueView};
use crate::graph::structure::node::{indexed, indexed_string};
use crate::json_value::{array_data, JsonData, JsonValue};
use crate::text::{concat, is_prefix, node_path, node_path_string, starts_with, text_eq};

verus! {

/// Two targets clash when they are equal or one lies inside the other.
pub open spec fn target_clash(target: Seq<char>, previous: Seq<char>) -> bool {
    target == previous || is_prefix(previous + "/"@, target) || is_prefix(target + "/"@, previous)
}

pub open spec fn target_fn() -> spec_fn(int, JsonData) -> Seq<Seq<char>> {
    |k: int, m: JsonData| match node_text(m, "target"@) {
        Some(t) => seq![t],
        None => Seq::empty(),
    }
}

/// The string targets of a list of mappings, in order.
pub open spec fn targets_of(mappings: Seq<JsonData>) -> Seq<Seq<char>> {
    flat_indexed(mappings, target_fn())
}

/// Some earlier target clashes with `target`.
pub open spec fn clashes_earlier(earlier: Seq<Seq<char>>, target: Seq<char>) -> bool {
    exists|j: int| 0 <= j < earlier.len() && target_clash(target, #[trigger] earlier[j])
}

pub open spec fn clash_fn(i: int, mappings: Seq<JsonData>) -> spec_fn(int, JsonData) -> Seq<IssueView> {
    |k: int, m: JsonData| match node_text(m, "target"@) {
        Some(t) => if clashes_earlier(targets_of(mappings.take(k)), t) {
            seq![(indexed(node_path(i) + "/mappings"@, k) + "/target"@, "MAPPING_TARGET"@,
                "mapping target duplicates or overlaps an earlier target"@)]
        } else {
            Seq::empty()
        },
        None => Seq::empty(),
    }
}

/// The mapping targets of node `i` that clash with an earlier target, whatever the node's type.
pub open spec fn target_clash_issues(i: int, node: JsonData) -> Seq<IssueView> {
    match node_field(node, "mappings"@) {
        Some(JsonData::Array(mappings)) => concat_indexed(mappings, clash_fn(i, mappings)),
        _ => Seq::empty(),
    }
}

/// The clashing targets of node `i`, when it is a map-schema node.
pub open spec fn mapping_target_issues(i: int, node: JsonData) -> Seq<IssueView> {
    if node_text(node, "type"@) == Some("map-schema"@) {
        target_clash_issues(i, node)
    } else {
        Seq::empty()
    }
}

/// The texts of a list of string slices.
pub open spec fn text_views(list: Seq<&str>) -> Seq<Seq<char>> {
    list.map_values(|t: &str| t@)
}

fn clashes(target: &str, previous: &str) -> (result: bool)
    ensures
        result == target_clash(target@, previous@),
{
    let parent = concat(previous, "/");
    let child = concat(target, "/");
    text_eq(target, previous) || starts_with(target, parent.as_str()) || starts_with(previous, child.as_str())
}

/// Reports every mapping target of a node that clashes with an earlier one.
pub fn validate_mapping_targets(node: &JsonValue, index: usize, issues: &mut Vec<IssueData>)
    ensures
        issue_views(final(issues)@) == issue_views(old(issues)@) + target_clash_issues(index as int, node@),
{
    let ghost start = issue_views(issues@);
    let mappings = match field_of(node, "mappings") {
        Some(v) => match v.array() {
            Some(items) => items,
            None => {
                assert(issue_views(issues@) =~= start + target_clash_issues(index as int, node@));
                return;
            },
        },
        None => {
            assert(issue_views(issues@) =~= start + target_clash_issues(index as int, node@));
            return;
        },
    };
    let ghost md = array_data(*mappings);
    let base = concat(node_path_string(index).as_str(), "/mappings");
    let mut targets: Vec<&str> = Vec::new();
    let mut k: usize = 0;
    while k < mappings.len()
        invariant
            k <= mappings.len(),
            md == array_data(*mappings),
            md.len() == mappings.len(),
            base@ == node_path(index as int) + "/mappings"@,
            text_views(targets@) == targets_of(md.take(k as int)),
            issue_views(issues@) == start + concat_indexed(md.take(k as int), clash_fn(index as int, md)),
        decreases mappings.len() - k,
    {
        proof {
            lemma_concat_indexed_step(md, k as int, clash_fn(index as int, md));
            lemma_flat_indexed_step(md, k as int, target_fn());
        }
        assert(md[k as int] == mappings[k as int]@);
        let ghost earlier = targets_of(md.take(k as int));
        match text_of(&mappings[k], "target") {
            Some(target) => {
                let mut clash = false;
                let mut j: usize = 0;
                while j < targets.len() && !clash
                    invariant
                        j <= targets.len(),
                        text_views(targets@) == earlier,
                        !clash ==> forall|q: int| 0 <= q < j ==> !target_clash(target@, #[trigger] earlier[q]),
                        clash ==> clashes_earlier(earlier, target@),
                    decreases targets.len() - j, if clash { 0int } else { 1int },
                {
                    assert(earlier[j as int] == targets[j as int]@);
                    if clashes(target, targets[j]) {
                        clash = true;
                    } else {
                        j = j + 1;
                    }
                }
                if clash {
                    let path = concat(indexed_string(base.as_str(), k).as_str(), "/target");
                    push_issue(issues, "MAPPING_TARGET", path, "mapping target duplicates or overlaps an earlier target");
                }
                let ghost before = targets@;
                targets.push(target);
                assert(text_views(targets@) =~= text_views(before).push(target@));
            },
            None => {},
        }
        assert(text_views(targets@) =~= targets_of(md.take(k + 1)));
        assert(issue_views(issues@) =~= start + concat_indexed(md.take(k + 1), clash_fn(index as int, md)));
        k = k + 1;
    }
    proof {
        lemma_concat_indexed_all(md, clash_fn(index as int, md));
    }
    assert(issue_views(issues@) =~= start + target_clash_issues(index as int, node@));
}

} // verus!
