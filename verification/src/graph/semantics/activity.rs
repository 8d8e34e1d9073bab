//! Activity analysis: which flows and gate choices can be active together at each node, in
//! topological order; implicit joins and convergence inputs that cannot meet.
use vstd::prelude::*;
use vstd::hash_map::StringHashMap;

use super::ids::{field_of, id_path, id_target, node_field, node_text, text_of, IdIndex};
use crate::diagnostics::{issue, issue_views, IssueData, IssueView};
use crate::graph::algorithms::{adjacency, count_true, graph_wf, has_edge, reaches, reverse_edges, reverses, lemma_count_true_bound, lemma_count_true_none, lemma_count_true_set, reachable_from};
use crate::json_pointer::{join_pointer, joined};
use crate::json_value::{array_data, object_data, JsonData, JsonValue};
use crate::text::{concat, node_path, node_path_string, owned, text_eq};

verus! {

/// What is active on one path into a node: the stack of open fan-out flows (fan-out node and
/// flow identifier) and, for each gate passed, the target it chose.
pub struct ActivityContext {
    flows: Vec<(usize, String)>,
    gates: Vec<(usize, usize)>,
}

/// A context as data.
pub closed spec fn context_view(c: ActivityContext) -> (Seq<(usize, Seq<char>)>, Seq<(usize, usize)>) {
    (flows_view(c.flows@), c.gates@)
}

/// Flows as data.
pub open spec fn flows_view(flows: Seq<(usize, String)>) -> Seq<(usize, Seq<char>)> {
    flows.map_values(|f: (usize, String)| (f.0, f.1@))
}

/// A fan-out node that declares `flow` as the identifier of one of its branches.
pub open spec fn branch_declares(node: JsonData, flow: Seq<char>) -> bool {
    &&& node_text(node, "type"@) == Some("fan-out"@)
    &&& match node_field(node, "branches"@) {
        Some(JsonData::Array(branches)) => exists|b: int| 0 <= b < branches.len() && node_text(#[trigger] branches[b], "id"@) == Some(flow),
        _ => false,
    }
}

/// Some fan-out node of the specification declares the branch flow `flow`.
pub open spec fn branch_flow(nodes: Seq<JsonData>, flow: Seq<char>) -> bool {
    exists|f: int| 0 <= f < nodes.len() && #[trigger] branch_declares(nodes[f], flow)
}

/// A node with an `inputs` object that has a member keyed `flow`.
pub open spec fn declares_input(node: JsonData, flow: Seq<char>) -> bool {
    match node_field(node, "inputs"@) {
        Some(JsonData::Object(inputs)) => exists|k: int| 0 <= k < inputs.len() && (#[trigger] inputs[k]).0 == flow,
        _ => false,
    }
}

/// An issue the activity analysis reports about node `i`: an ordinary node (not a
/// convergence, raise-error or fan-out node) that may receive simultaneously active values;
/// a convergence node whose inputs cannot all be active together; or a convergence input,
/// keyed by a branch flow, whose flow is suspended or not active at its source.
pub open spec fn activity_issue_at(nodes: Seq<JsonData>, i: int, issue: IssueView) -> bool {
    let kind = node_text(nodes[i], "type"@);
    ||| nodes[i] is Object && kind != Some("converge"@) && kind != Some("raise-error"@) && kind != Some("fan-out"@)
        && issue == (id_path(i), "GRAPH_IMPLICIT_JOIN"@, "ordinary node may receive simultaneously active values"@)
    ||| kind == Some("converge"@)
        && issue == (node_path(i) + "/inputs"@, "CONVERGE_ACTIVITY"@, "declared convergence inputs cannot all be active together"@)
    ||| kind == Some("converge"@) && issue.1 == "FLOW_INVALID"@
        && (issue.2 == "suspended parent flow cannot be consumed before child recombination"@
            || issue.2 == "flow is not active at the declared source"@)
        && exists|flow: Seq<char>| #[trigger] declares_input(nodes[i], flow) && branch_flow(nodes, flow)
            && issue.0 == joined(node_path(i) + "/inputs"@, flow)
}

/// An issue the activity analysis reports about some node.
pub open spec fn activity_issue(nodes: Seq<JsonData>, issue: IssueView) -> bool {
    exists|i: int| 0 <= i < nodes.len() && #[trigger] activity_issue_at(nodes, i, issue)
}

/// Every issue from position `from` on is one the activity analysis reports.
pub open spec fn activity_issues(nodes: Seq<JsonData>, issues: Seq<IssueData>, from: int) -> bool {
    forall|k: int| from <= k < issues.len() ==> activity_issue(nodes, #[trigger] issues[k]@)
}

fn copy_flows(flows: &Vec<(usize, String)>) -> (result: Vec<(usize, String)>)
    ensures
        flows_view(result@) == flows_view(flows@),
{
    let mut out: Vec<(usize, String)> = Vec::new();
    let mut i: usize = 0;
    while i < flows.len()
        invariant
            i <= flows.len(),
            out.len() == i,
            forall|k: int| 0 <= k < i ==> (#[trigger] out@[k]).0 == flows@[k].0 && out@[k].1@ == flows@[k].1@,
        decreases flows.len() - i,
    {
        out.push((flows[i].0, owned(flows[i].1.as_str())));
        i = i + 1;
    }
    assert(flows_view(out@) =~= flows_view(flows@));
    out
}

impl ActivityContext {
    /// One choice per gate, ordered by gate.
    #[verifier::type_invariant]
    spec fn choices_ordered(self) -> bool {
        gates_sorted(self.gates@)
    }

    /// The context before any fan-out or gate.
    pub fn initial() -> (result: ActivityContext)
        ensures
            context_view(result).0.len() == 0,
            context_view(result).1.len() == 0,
            context_view(result) == (Seq::<(usize, Seq<char>)>::empty(), Seq::<(usize, usize)>::empty()),
    {
        let result = ActivityContext { flows: Vec::new(), gates: Vec::new() };
        assert(context_view(result).0 =~= Seq::<(usize, Seq<char>)>::empty());
        assert(context_view(result).1 =~= Seq::<(usize, usize)>::empty());
        result
    }

    /// A copy.
    pub fn copy(&self) -> (result: ActivityContext)
        ensures
            context_view(result) == context_view(*self),
    {
        proof {
            use_type_invariant(self);
        }
        let mut gates: Vec<(usize, usize)> = Vec::new();
        let mut i: usize = 0;
        while i < self.gates.len()
            invariant
                i <= self.gates.len(),
                gates@ == self.gates@.take(i as int),
            decreases self.gates.len() - i,
        {
            gates.push(self.gates[i]);
            assert(gates@ =~= self.gates@.take(i + 1));
            i = i + 1;
        }
        assert(self.gates@.take(self.gates.len() as int) =~= self.gates@);
        ActivityContext { flows: copy_flows(&self.flows), gates }
    }

    /// A copy with one more open flow, `flow` of fan-out `fan`.
    fn with_flow(&self, fan: usize, flow: &str) -> (result: ActivityContext)
        ensures
            context_view(result) == (context_view(*self).0.push((fan, flow@)), context_view(*self).1),
    {
        let copy = self.copy();
        let mut flows = copy_flows(&self.flows);
        let ghost before = flows@;
        flows.push((fan, owned(flow)));
        assert(flows_view(flows@) =~= flows_view(before).push((fan, flow@)));
        proof {
            use_type_invariant(&copy);
        }
        ActivityContext { flows, gates: copy.gates }
    }

    /// A copy without its last open flow.
    fn without_last_flow(&self) -> (result: ActivityContext)
        requires
            context_view(*self).0.len() > 0,
        ensures
            context_view(result) == (context_view(*self).0.drop_last(), context_view(*self).1),
    {
        let copy = self.copy();
        let mut flows = copy_flows(&self.flows);
        let ghost before = flows@;
        flows.pop();
        assert(flows_view(flows@) =~= flows_view(before).drop_last());
        proof {
            use_type_invariant(&copy);
        }
        ActivityContext { flows, gates: copy.gates }
    }

    /// Whether two contexts hold the same flows in the same order.
    pub fn same_flows(&self, other: &ActivityContext) -> (result: bool)
        ensures
            result == (context_view(*self).0 == context_view(*other).0),
    {
        let ghost a = context_view(*self).0;
        let ghost b = context_view(*other).0;
        if self.flows.len() != other.flows.len() {
            assert(a.len() != b.len());
            return false;
        }
        let mut i: usize = 0;
        while i < self.flows.len()
            invariant
                i <= self.flows.len(),
                self.flows.len() == other.flows.len(),
                a == context_view(*self).0,
                b == context_view(*other).0,
                forall|k: int| 0 <= k < i ==> #[trigger] a[k] == b[k],
            decreases self.flows.len() - i,
        {
            assert(a[i as int] == (self.flows@[i as int].0, self.flows@[i as int].1@));
            assert(b[i as int] == (other.flows@[i as int].0, other.flows@[i as int].1@));
            if self.flows[i].0 != other.flows[i].0 || !text_eq(self.flows[i].1.as_str(), other.flows[i].1.as_str()) {
                assert(a[i as int] != b[i as int]);
                return false;
            }
            i = i + 1;
        }
        assert(a =~= b);
        true
    }

    /// Whether two contexts are the same.
    pub fn same(&self, other: &ActivityContext) -> (result: bool)
        ensures
            result == (context_view(*self) == context_view(*other)),
    {
        if !self.same_flows(other) {
            return false;
        }
        if self.gates.len() != other.gates.len() {
            return false;
        }
        let mut i: usize = 0;
        while i < self.gates.len()
            invariant
                i <= self.gates.len(),
                self.gates.len() == other.gates.len(),
                forall|k: int| 0 <= k < i ==> #[trigger] self.gates@[k] == other.gates@[k],
            decreases self.gates.len() - i,
        {
            if self.gates[i].0 != other.gates[i].0 || self.gates[i].1 != other.gates[i].1 {
                return false;
            }
            i = i + 1;
        }
        assert(self.gates@ =~= other.gates@);
        true
    }

    /// The target chosen at a gate, if any.
    fn gate_choice(&self, gate: usize) -> (result: Option<usize>)
        ensures
            result == choice(self.gates@, gate),
    {
        proof {
            use_type_invariant(self);
        }
        let mut i: usize = 0;
        assert(self.gates@.skip(0) =~= self.gates@);
        while i < self.gates.len()
            invariant
                i <= self.gates.len(),
                choice(self.gates@, gate) == choice(self.gates@.skip(i as int), gate),
            decreases self.gates.len() - i,
        {
            assert(self.gates@.skip(i as int)[0] == self.gates@[i as int]);
            if self.gates[i].0 == gate {
                return Some(self.gates[i].1);
            }
            assert(self.gates@.skip(i as int).drop_first() =~= self.gates@.skip(i + 1));
            i = i + 1;
        }
        None
    }

    /// Records the target chosen at a gate, keeping the choices ordered by gate.
    fn choose_gate(&mut self, gate: usize, target: usize)
        ensures
            forall|g: usize| #[trigger] choice(final(self).gates@, g) == if g == gate {
                Some(target)
            } else {
                choice(old(self).gates@, g)
            },
            flows_view(final(self).flows@) == flows_view(old(self).flows@),
            context_view(*final(self)) == choose_cv(context_view(*old(self)), gate, target),
    {
        proof {
            use_type_invariant(&*self);
        }
        let ghost before = self.gates@;
        let mut gates: Vec<(usize, usize)> = Vec::new();
        std::mem::swap(&mut gates, &mut self.gates);
        let mut i: usize = 0;
        while i < gates.len() && gates[i].0 < gate
            invariant
                i <= gates.len(),
                gates@ == before,
                forall|k: int| 0 <= k < i ==> (#[trigger] before[k]).0 < gate,
            decreases gates.len() - i,
        {
            i = i + 1;
        }
        if i < gates.len() && gates[i].0 == gate {
            gates.set(i, (gate, target));
            proof {
                let after = gates@;
                assert forall|a: int, b: int| 0 <= a < b < after.len() implies (#[trigger] after[a]).0 < (#[trigger] after[b]).0 by {
                    assert(after[a].0 == before[a].0 && after[b].0 == before[b].0);
                }
                assert forall|g: usize| #[trigger] choice(after, g) == if g == gate { Some(target) } else { choice(before, g) } by {
                    lemma_choice_sorted(before, g);
                    lemma_choice_sorted(after, g);
                    if g == gate {
                        assert(after[i as int].0 == gate);
                    } else {
                        if exists|k: int| 0 <= k < before.len() && #[trigger] before[k].0 == g {
                            let k = choose|k: int| 0 <= k < before.len() && #[trigger] before[k].0 == g;
                            assert(after[k] == before[k]);
                        }
                        if exists|k: int| 0 <= k < after.len() && #[trigger] after[k].0 == g {
                            let k = choose|k: int| 0 <= k < after.len() && #[trigger] after[k].0 == g;
                            assert(after[k] == before[k]);
                        }
                    }
                }
            }
        } else {
            gates.insert(i, (gate, target));
            proof {
                let after = gates@;
                assert(after == before.insert(i as int, (gate, target)));
                assert forall|a: int, b: int| 0 <= a < b < after.len() implies (#[trigger] after[a]).0 < (#[trigger] after[b]).0 by {
                    if a < i && b > i {
                        assert(after[b] == before[b - 1]);
                    } else if a == i && b > i {
                        assert(after[b] == before[b - 1]);
                    } else if a > i {
                        assert(after[a] == before[a - 1] && after[b] == before[b - 1]);
                    }
                }
                assert forall|g: usize| #[trigger] choice(after, g) == if g == gate { Some(target) } else { choice(before, g) } by {
                    lemma_choice_sorted(before, g);
                    lemma_choice_sorted(after, g);
                    if g != gate {
                        if exists|k: int| 0 <= k < before.len() && #[trigger] before[k].0 == g {
                            let k = choose|k: int| 0 <= k < before.len() && #[trigger] before[k].0 == g;
                            if k < i {
                                assert(after[k] == before[k]);
                            } else {
                                assert(after[k + 1] == before[k]);
                            }
                        }
                        if exists|k: int| 0 <= k < after.len() && #[trigger] after[k].0 == g {
                            let k = choose|k: int| 0 <= k < after.len() && #[trigger] after[k].0 == g;
                            if k < i {
                                assert(after[k] == before[k]);
                            } else if k > i {
                                assert(after[k] == before[k - 1]);
                            }
                        }
                    } else {
                        assert(after[i as int] == (gate, target));
                    }
                }
            }
        }
        proof {
            lemma_is_with(gates@, before, gate, target);
        }
        self.gates = gates;
    }

    /// Forgets the choices of the gates in `retired`.
    fn retire_gates(&mut self, retired: &Vec<usize>)
        ensures
            forall|g: usize| #[trigger] choice(final(self).gates@, g) == if retired@.contains(g) {
                None
            } else {
                choice(old(self).gates@, g)
            },
            flows_view(final(self).flows@) == flows_view(old(self).flows@),
            context_view(*final(self)) == retire_cv(context_view(*old(self)), retired@),
    {
        proof {
            use_type_invariant(&*self);
        }
        let ghost before = self.gates@;
        let mut kept: Vec<(usize, usize)> = Vec::new();
        let mut i: usize = 0;
        while i < self.gates.len()
            invariant
                i <= self.gates.len(),
                self.gates@ == before,
                gates_sorted(before),
                gates_sorted(kept@),
                forall|k: int| 0 <= k < kept.len() ==> kept_from(before, retired@, i as int, #[trigger] kept@[k]),
                forall|j: int| 0 <= j < i && !retired@.contains(before[j].0) ==> #[trigger] kept@.contains(before[j]),
                kept.len() > 0 ==> kept_from(before, retired@, i as int, kept@.last()),
            decreases self.gates.len() - i,
        {
            let (gate, target) = self.gates[i];
            if !contains_index(retired, gate) {
                let ghost pre = kept@;
                kept.push((gate, target));
                proof {
                    assert forall|a: int, b: int| 0 <= a < b < kept.len() implies (#[trigger] kept@[a]).0 < (#[trigger] kept@[b]).0 by {
                        if b == kept.len() - 1 {
                            assert(kept@[a] == pre[a]);
                            assert(kept_from(before, retired@, i as int, pre[a]));
                            let ja = choose|j: int| 0 <= j < i && before[j] == pre[a] && !retired@.contains(before[j].0);
                        } else {
                            assert(kept@[a] == pre[a] && kept@[b] == pre[b]);
                        }
                    }
                    assert forall|k: int| 0 <= k < kept.len() implies kept_from(before, retired@, i + 1, #[trigger] kept@[k]) by {
                        if k < pre.len() {
                            assert(kept@[k] == pre[k]);
                            assert(kept_from(before, retired@, i as int, pre[k]));
                            let j = choose|j: int| 0 <= j < i && before[j] == pre[k] && !retired@.contains(before[j].0);
                        } else {
                            assert(before[i as int] == kept@[k]);
                        }
                    }
                    assert forall|j: int| 0 <= j < i + 1 && !retired@.contains(before[j].0) implies #[trigger] kept@.contains(before[j]) by {
                        if j < i {
                            assert(pre.contains(before[j]));
                            let k = choose|k: int| 0 <= k < pre.len() && pre[k] == before[j];
                            assert(kept@[k] == pre[k]);
                        } else {
                            assert(kept@[pre.len() as int] == before[j]);
                        }
                    }
                    assert(before[i as int] == kept@.last());
                }
            } else {
                proof {
                    assert forall|k: int| 0 <= k < kept.len() implies kept_from(before, retired@, i + 1, #[trigger] kept@[k]) by {
                        assert(kept_from(before, retired@, i as int, kept@[k]));
                        let j = choose|j: int| 0 <= j < i && before[j] == kept@[k] && !retired@.contains(before[j].0);
                    }
                    if kept.len() > 0 {
                        let j = choose|j: int| 0 <= j < i && before[j] == kept@.last() && !retired@.contains(before[j].0);
                    }
                }
            }
            i = i + 1;
        }
        self.gates = kept;
        proof {
            let after = self.gates@;
            assert forall|g: usize| #[trigger] choice(after, g) == if retired@.contains(g) { None } else { choice(before, g) } by {
                lemma_choice_sorted(before, g);
                lemma_choice_sorted(after, g);
                if exists|k: int| 0 <= k < after.len() && #[trigger] after[k].0 == g {
                    let k = choose|k: int| 0 <= k < after.len() && #[trigger] after[k].0 == g;
                    assert(kept_from(before, retired@, before.len() as int, after[k]));
                    let j = choose|j: int| 0 <= j < before.len() && before[j] == after[k] && !retired@.contains(before[j].0);
                }
                if exists|j: int| 0 <= j < before.len() && #[trigger] before[j].0 == g {
                    let j = choose|j: int| 0 <= j < before.len() && #[trigger] before[j].0 == g;
                    if !retired@.contains(g) {
                        assert(after.contains(before[j]));
                        let k = choose|k: int| 0 <= k < after.len() && after[k] == before[j];
                        assert(after[k].0 == g);
                    }
                }
            }
            lemma_is_after_retiring(after, before, retired@);
        }
    }
}

/// `x` is one of the first `upto` choices, and its gate is not retired.
spec fn kept_from(before: Seq<(usize, usize)>, retired: Seq<usize>, upto: int, x: (usize, usize)) -> bool {
    exists|j: int| 0 <= j < upto && before[j] == x && !retired.contains(before[j].0)
}

/// Gate choices ordered strictly by gate: one choice per gate.
pub open spec fn gates_sorted(gates: Seq<(usize, usize)>) -> bool {
    forall|a: int, b: int| 0 <= a < b < gates.len() ==> (#[trigger] gates[a]).0 < (#[trigger] gates[b]).0
}

/// The target chosen at `gate`: the first choice recorded for it.
pub open spec fn choice(gates: Seq<(usize, usize)>, gate: usize) -> Option<usize>
    decreases gates.len(),
{
    if gates.len() == 0 {
        None
    } else if gates[0].0 == gate {
        Some(gates[0].1)
    } else {
        choice(gates.drop_first(), gate)
    }
}

/// In sorted choices, a gate has a choice exactly when an entry names it, and the choice is
/// that entry's target.
proof fn lemma_choice_sorted(gates: Seq<(usize, usize)>, gate: usize)
    requires
        gates_sorted(gates),
    ensures
        choice(gates, gate) is Some <==> exists|k: int| 0 <= k < gates.len() && #[trigger] gates[k].0 == gate,
        forall|k: int| 0 <= k < gates.len() && #[trigger] gates[k].0 == gate ==> choice(gates, gate) == Some(gates[k].1),
    decreases gates.len(),
{
    if gates.len() > 0 {
        let rest = gates.drop_first();
        assert forall|a: int, b: int| 0 <= a < b < rest.len() implies (#[trigger] rest[a]).0 < (#[trigger] rest[b]).0 by {
            assert(rest[a] == gates[a + 1] && rest[b] == gates[b + 1]);
        }
        lemma_choice_sorted(rest, gate);
        if gates[0].0 != gate {
            assert forall|k: int| 0 <= k < gates.len() && #[trigger] gates[k].0 == gate implies choice(gates, gate) == Some(gates[k].1) by {
                assert(k > 0);
                assert(rest[k - 1] == gates[k]);
            }
            if exists|k: int| 0 <= k < gates.len() && #[trigger] gates[k].0 == gate {
                let k = choose|k: int| 0 <= k < gates.len() && #[trigger] gates[k].0 == gate;
                assert(rest[k - 1] == gates[k]);
            }
            if exists|k: int| 0 <= k < rest.len() && #[trigger] rest[k].0 == gate {
                let k = choose|k: int| 0 <= k < rest.len() && #[trigger] rest[k].0 == gate;
                assert(gates[k + 1] == rest[k]);
            }
        } else {
            assert forall|k: int| 0 <= k < gates.len() && #[trigger] gates[k].0 == gate implies choice(gates, gate) == Some(gates[k].1) by {
                if k > 0 {
                    assert(gates[0].0 < gates[k].0);
                }
            }
        }
    }
}

/// Without its first entry, sorted choices lose exactly the first gate's choice.
proof fn lemma_choice_tail(a: Seq<(usize, usize)>, g: usize)
    requires
        gates_sorted(a),
        a.len() > 0,
    ensures
        choice(a.drop_first(), g) == if g == a[0].0 { None } else { choice(a, g) },
{
    let tail = a.drop_first();
    assert forall|x: int, y: int| 0 <= x < y < tail.len() implies (#[trigger] tail[x]).0 < (#[trigger] tail[y]).0 by {
        assert(tail[x] == a[x + 1] && tail[y] == a[y + 1]);
    }
    if g == a[0].0 {
        lemma_choice_sorted(tail, g);
        if choice(tail, g) is Some {
            let k = choose|k: int| 0 <= k < tail.len() && #[trigger] tail[k].0 == g;
            assert(tail[k] == a[k + 1]);
        }
    }
}

/// Sorted choices are determined by the choice they make at each gate.
proof fn lemma_sorted_choices_equal(a: Seq<(usize, usize)>, b: Seq<(usize, usize)>)
    requires
        gates_sorted(a),
        gates_sorted(b),
        forall|g: usize| #[trigger] choice(a, g) == choice(b, g),
    ensures
        a == b,
    decreases a.len() + b.len(),
{
    if a.len() == 0 {
        if b.len() > 0 {
            lemma_choice_sorted(b, b[0].0);
            assert(choice(a, b[0].0) == choice(b, b[0].0));
        }
        assert(a =~= b);
    } else if b.len() == 0 {
        lemma_choice_sorted(a, a[0].0);
        assert(choice(a, a[0].0) == choice(b, a[0].0));
    } else {
        lemma_choice_sorted(a, a[0].0);
        lemma_choice_sorted(b, a[0].0);
        lemma_choice_sorted(a, b[0].0);
        lemma_choice_sorted(b, b[0].0);
        assert(choice(a, a[0].0) == choice(b, a[0].0));
        assert(choice(a, b[0].0) == choice(b, b[0].0));
        let kb = choose|k: int| 0 <= k < b.len() && #[trigger] b[k].0 == a[0].0;
        let ka = choose|k: int| 0 <= k < a.len() && #[trigger] a[k].0 == b[0].0;
        if kb > 0 {
            assert(b[0].0 < b[kb].0);
        }
        if ka > 0 {
            assert(a[0].0 < a[ka].0);
        }
        assert(a[0].0 == b[0].0);
        assert(a[0] == b[0]);
        assert forall|g: usize| #[trigger] choice(a.drop_first(), g) == choice(b.drop_first(), g) by {
            lemma_choice_tail(a, g);
            lemma_choice_tail(b, g);
            assert(choice(a, g) == choice(b, g));
        }
        assert forall|x: int, y: int| 0 <= x < y < a.drop_first().len() implies (#[trigger] a.drop_first()[x]).0 < (#[trigger] a.drop_first()[y]).0 by {
            assert(a.drop_first()[x] == a[x + 1] && a.drop_first()[y] == a[y + 1]);
        }
        assert forall|x: int, y: int| 0 <= x < y < b.drop_first().len() implies (#[trigger] b.drop_first()[x]).0 < (#[trigger] b.drop_first()[y]).0 by {
            assert(b.drop_first()[x] == b[x + 1] && b.drop_first()[y] == b[y + 1]);
        }
        lemma_sorted_choices_equal(a.drop_first(), b.drop_first());
        assert(a =~= seq![a[0]] + a.drop_first());
        assert(b =~= seq![b[0]] + b.drop_first());
    }
}

/// The sorted choices of `gates` without those of the gates in `retired`.
pub open spec fn choices_after_retiring(gates: Seq<(usize, usize)>, retired: Seq<usize>) -> Seq<(usize, usize)> {
    choose|r: Seq<(usize, usize)>| gates_sorted(r) && forall|g: usize| #[trigger] choice(r, g) == if retired.contains(g) {
        None
    } else {
        choice(gates, g)
    }
}

/// The sorted choices of `gates` with `gate` choosing `target`.
pub open spec fn choices_with(gates: Seq<(usize, usize)>, gate: usize, target: usize) -> Seq<(usize, usize)> {
    choose|r: Seq<(usize, usize)>| gates_sorted(r) && forall|g: usize| #[trigger] choice(r, g) == if g == gate {
        Some(target)
    } else {
        choice(gates, g)
    }
}

/// The sorted choices of `left`, with those of `right` for the gates `left` leaves open.
pub open spec fn choices_merged(left: Seq<(usize, usize)>, right: Seq<(usize, usize)>) -> Seq<(usize, usize)> {
    choose|r: Seq<(usize, usize)>| gates_sorted(r) && forall|g: usize| #[trigger] choice(r, g) == if choice(left, g) is Some {
        choice(left, g)
    } else {
        choice(right, g)
    }
}

proof fn lemma_is_after_retiring(x: Seq<(usize, usize)>, gates: Seq<(usize, usize)>, retired: Seq<usize>)
    requires
        gates_sorted(x),
        forall|g: usize| #[trigger] choice(x, g) == if retired.contains(g) { None } else { choice(gates, g) },
    ensures
        x == choices_after_retiring(gates, retired),
{
    let r = choices_after_retiring(gates, retired);
    assert forall|g: usize| #[trigger] choice(x, g) == choice(r, g) by {}
    lemma_sorted_choices_equal(x, r);
}

proof fn lemma_is_with(x: Seq<(usize, usize)>, gates: Seq<(usize, usize)>, gate: usize, target: usize)
    requires
        gates_sorted(x),
        forall|g: usize| #[trigger] choice(x, g) == if g == gate { Some(target) } else { choice(gates, g) },
    ensures
        x == choices_with(gates, gate, target),
{
    let r = choices_with(gates, gate, target);
    assert forall|g: usize| #[trigger] choice(x, g) == choice(r, g) by {}
    lemma_sorted_choices_equal(x, r);
}

proof fn lemma_is_merged(x: Seq<(usize, usize)>, left: Seq<(usize, usize)>, right: Seq<(usize, usize)>)
    requires
        gates_sorted(x),
        forall|g: usize| #[trigger] choice(x, g) == if choice(left, g) is Some { choice(left, g) } else { choice(right, g) },
    ensures
        x == choices_merged(left, right),
{
    let r = choices_merged(left, right);
    assert forall|g: usize| #[trigger] choice(x, g) == choice(r, g) by {}
    lemma_sorted_choices_equal(x, r);
}

/// A context as data: its open flows and its gate choices.
pub type ContextView = (Seq<(usize, Seq<char>)>, Seq<(usize, usize)>);

/// A context with the choices of the gates in `retired` forgotten.
pub open spec fn retire_cv(c: ContextView, retired: Seq<usize>) -> ContextView {
    (c.0, choices_after_retiring(c.1, retired))
}

/// A context with `gate` choosing `target`.
pub open spec fn choose_cv(c: ContextView, gate: usize, target: usize) -> ContextView {
    (c.0, choices_with(c.1, gate, target))
}

/// A context with flow `flow` of fan-out `fan` opened.
pub open spec fn flow_cv(c: ContextView, fan: usize, flow: Seq<char>) -> ContextView {
    (c.0.push((fan, flow)), c.1)
}

/// Two contexts combined: defined when they hold the same flows and choose no gate two ways.
pub open spec fn merge_cv(left: ContextView, right: ContextView) -> Option<ContextView> {
    if left.0 == right.0 && forall|g: usize| #[trigger] choice(left.1, g) is Some && choice(right.1, g) is Some
        ==> choice(left.1, g) == choice(right.1, g) {
        Some((left.0, choices_merged(left.1, right.1)))
    } else {
        None
    }
}

/// A set of contexts with `c` added, unless it is already there.
pub open spec fn set_insert(set: Seq<ContextView>, c: ContextView) -> Seq<ContextView> {
    if set.contains(c) {
        set
    } else {
        set.push(c)
    }
}

/// The contexts at every node, as data.
pub open spec fn sets_view(contexts: Seq<Vec<ActivityContext>>) -> Seq<Seq<ContextView>> {
    contexts.map_values(|v: Vec<ActivityContext>| contexts_view(v@))
}

/// The retired gates at every node, as data.
pub open spec fn retired_view(retired: Seq<Vec<usize>>) -> Seq<Seq<usize>> {
    retired.map_values(|v: Vec<usize>| v@)
}

/// Context `c` arriving at `target`: the choices of the gates retired there are forgotten and
/// the result joins the target's set.
pub open spec fn arrive(sets: Seq<Seq<ContextView>>, target: int, c: ContextView, retired: Seq<Seq<usize>>) -> Seq<Seq<ContextView>> {
    sets.update(target, set_insert(sets[target], retire_cv(c, retired[target])))
}

fn contains_index(list: &Vec<usize>, x: usize) -> (result: bool)
    ensures
        result == list@.contains(x),
{
    let mut i: usize = 0;
    while i < list.len()
        invariant
            i <= list.len(),
            forall|k: int| 0 <= k < i ==> list@[k] != x,
        decreases list.len() - i,
    {
        if list[i] == x {
            return true;
        }
        i = i + 1;
    }
    false
}

/// The set of contexts at a node, as data.
pub open spec fn contexts_view(set: Seq<ActivityContext>) -> Seq<(Seq<(usize, Seq<char>)>, Seq<(usize, usize)>)> {
    set.map_values(|c: ActivityContext| context_view(c))
}

/// Adds a context to a set of contexts unless an equal one is there.
fn insert_unique(set: &mut Vec<ActivityContext>, context: ActivityContext)
    ensures
        contexts_view(old(set)@).contains(context_view(context)) ==> contexts_view(final(set)@) == contexts_view(old(set)@),
        !contexts_view(old(set)@).contains(context_view(context)) ==> contexts_view(final(set)@) == contexts_view(old(set)@).push(
            context_view(context),
        ),
{
    let ghost before = contexts_view(set@);
    let mut i: usize = 0;
    while i < set.len()
        invariant
            i <= set.len(),
            before == contexts_view(set@),
            forall|k: int| 0 <= k < i ==> before[k] != context_view(context),
        decreases set.len() - i,
    {
        if set[i].same(&context) {
            assert(before[i as int] == context_view(context));
            return;
        }
        i = i + 1;
    }
    set.push(context);
    assert(contexts_view(set@) =~= before.push(context_view(context)));
}

/// Two contexts can be active together: the same flows, and no gate chosen two ways.
pub closed spec fn compatible(left: ActivityContext, right: ActivityContext) -> bool {
    &&& context_view(left).0 == context_view(right).0
    &&& forall|g: usize| #[trigger] choice(left.gates@, g) is Some && choice(right.gates@, g) is Some
        ==> choice(left.gates@, g) == choice(right.gates@, g)
}

/// The choice of a merged context: the left one's, else the right one's.
pub closed spec fn merged_choice(left: ActivityContext, right: ActivityContext, g: usize) -> Option<usize> {
    if choice(left.gates@, g) is Some {
        choice(left.gates@, g)
    } else {
        choice(right.gates@, g)
    }
}

/// The target a context records for a gate, if any.
pub closed spec fn chosen(c: ActivityContext, g: usize) -> Option<usize> {
    choice(c.gates@, g)
}

proof fn lemma_sorted_prefix(gates: Seq<(usize, usize)>, i: int)
    requires
        gates_sorted(gates),
        0 <= i <= gates.len(),
    ensures
        gates_sorted(gates.take(i)),
{
    assert forall|a: int, b: int| 0 <= a < b < gates.take(i).len() implies (#[trigger] gates.take(i)[a]).0 < (#[trigger] gates.take(i)[b]).0 by {
        assert(gates.take(i)[a] == gates[a] && gates.take(i)[b] == gates[b]);
    }
}

/// Extending sorted choices by one entry adds that entry's choice.
proof fn lemma_choice_take_step(gates: Seq<(usize, usize)>, i: int, g: usize)
    requires
        gates_sorted(gates),
        0 <= i < gates.len(),
    ensures
        choice(gates.take(i + 1), g) == if gates[i].0 == g {
            Some(gates[i].1)
        } else {
            choice(gates.take(i), g)
        },
{
    lemma_sorted_prefix(gates, i);
    lemma_sorted_prefix(gates, i + 1);
    let a = gates.take(i);
    let b = gates.take(i + 1);
    lemma_choice_sorted(a, g);
    lemma_choice_sorted(b, g);
    assert(b[i] == gates[i]);
    if gates[i].0 == g {
        assert(b[i].0 == g);
    } else {
        if exists|k: int| 0 <= k < a.len() && #[trigger] a[k].0 == g {
            let k = choose|k: int| 0 <= k < a.len() && #[trigger] a[k].0 == g;
            assert(b[k] == a[k]);
        }
        if exists|k: int| 0 <= k < b.len() && #[trigger] b[k].0 == g {
            let k = choose|k: int| 0 <= k < b.len() && #[trigger] b[k].0 == g;
            assert(k != i);
            assert(b[k] == a[k]);
        }
    }
}

/// Combines the contexts of two convergence inputs: same flows, and no gate chosen two ways.
fn merge_contexts(left: &ActivityContext, right: &ActivityContext) -> (result: Option<ActivityContext>)
    ensures
        result is Some <==> compatible(*left, *right),
        result is Some ==> context_view(result->0).0 == context_view(*left).0
            && forall|g: usize| #[trigger] chosen(result->0, g) == merged_choice(*left, *right, g),
        match result {
            Some(m) => merge_cv(context_view(*left), context_view(*right)) == Some(context_view(m)),
            None => merge_cv(context_view(*left), context_view(*right)) is None,
        },
{
    proof {
        use_type_invariant(left);
        use_type_invariant(right);
    }
    if !left.same_flows(right) {
        return None;
    }
    let ghost r = right.gates@;
    let ghost l = left.gates@;
    let mut merged = left.copy();
    assert(r.take(0) =~= Seq::<(usize, usize)>::empty());
    let mut i: usize = 0;
    while i < right.gates.len()
        invariant
            i <= right.gates.len(),
            r == right.gates@,
            l == left.gates@,
            gates_sorted(r),
            context_view(merged).0 == context_view(*left).0,
            forall|g: usize| #[trigger] choice(merged.gates@, g) == if choice(l, g) is Some {
                choice(l, g)
            } else {
                choice(r.take(i as int), g)
            },
            forall|k: int| 0 <= k < i && #[trigger] choice(l, r[k].0) is Some ==> choice(l, r[k].0) == Some(r[k].1),
        decreases right.gates.len() - i,
    {
        let (gate, target) = right.gates[i];
        proof {
            lemma_sorted_prefix(r, i as int);
            lemma_choice_sorted(r.take(i as int), gate);
            if choice(r.take(i as int), gate) is Some {
                let k = choose|k: int| 0 <= k < r.take(i as int).len() && #[trigger] r.take(i as int)[k].0 == gate;
                assert(r[k] == r.take(i as int)[k]);
                assert(r[k].0 < r[i as int].0);
            }
        }
        match merged.gate_choice(gate) {
            Some(existing) => {
                if existing != target {
                    proof {
                        lemma_choice_sorted(r, gate);
                        assert(r[i as int].0 == gate);
                        assert(choice(r, gate) == Some(target));
                        assert(choice(l, gate) == Some(existing));
                        assert(!(choice(l, gate) is Some && choice(r, gate) is Some ==> choice(l, gate) == choice(r, gate)));
                    }
                    return None;
                }
            },
            None => {},
        }
        let ghost before = merged.gates@;
        merged.choose_gate(gate, target);
        proof {
            assert forall|g: usize| #[trigger] choice(merged.gates@, g) == if choice(l, g) is Some {
                choice(l, g)
            } else {
                choice(r.take(i + 1), g)
            } by {
                lemma_choice_take_step(r, i as int, g);
            }
        }
        i = i + 1;
    }
    proof {
        assert(r.take(r.len() as int) =~= r);
        assert forall|g: usize| #[trigger] choice(l, g) is Some && choice(r, g) is Some implies choice(l, g) == choice(r, g) by {
            lemma_choice_sorted(r, g);
            let k = choose|k: int| 0 <= k < r.len() && #[trigger] r[k].0 == g;
            assert(choice(l, r[k].0) is Some);
        }
        use_type_invariant(&merged);
        lemma_is_merged(merged.gates@, l, r);
    }
    Some(merged)
}

/// Adds a context at `target`, after forgetting the gates retired there.
fn insert_context(target: usize, context: ActivityContext, retired: &Vec<Vec<usize>>, contexts: &mut Vec<Vec<ActivityContext>>)
    requires
        target < old(contexts).len(),
        target < retired.len(),
    ensures
        final(contexts).len() == old(contexts).len(),
        forall|t: int| 0 <= t < final(contexts).len() && t != target ==> #[trigger] final(contexts)@[t] == old(contexts)@[t],
        sets_view(final(contexts)@) == arrive(sets_view(old(contexts)@), target as int, context_view(context), retired_view(retired@)),
        exists|c: ActivityContext| {
            &&& context_view(c).0 == context_view(context).0
            &&& forall|g: usize| #[trigger] chosen(c, g) == if retired@[target as int]@.contains(g) { None } else { chosen(context, g) }
            &&& if contexts_view(old(contexts)@[target as int]@).contains(context_view(c)) {
                contexts_view(final(contexts)@[target as int]@) == contexts_view(old(contexts)@[target as int]@)
            } else {
                contexts_view(final(contexts)@[target as int]@) == contexts_view(old(contexts)@[target as int]@).push(context_view(c))
            }
        },
{
    let mut context = context;
    let ghost given = context;
    context.retire_gates(&retired[target]);
    let mut set: Vec<ActivityContext> = Vec::new();
    std::mem::swap(&mut set, &mut contexts[target]);
    let ghost before = set@;
    insert_unique(&mut set, context.copy());
    contexts.set(target, set);
    proof {
        assert(sets_view(contexts@) =~= arrive(sets_view(old(contexts)@), target as int, context_view(given), retired_view(retired@)));
        let c = context;
        assert forall|g: usize| #[trigger] chosen(c, g) == if retired@[target as int]@.contains(g) { None } else { chosen(given, g) } by {
        }
    }
}

/// Copies of the contexts at a node.
fn copy_contexts(set: &Vec<ActivityContext>) -> (result: Vec<ActivityContext>)
    ensures
        contexts_view(result@) == contexts_view(set@),
{
    let mut out: Vec<ActivityContext> = Vec::new();
    let mut i: usize = 0;
    while i < set.len()
        invariant
            i <= set.len(),
            contexts_view(out@) == contexts_view(set@).take(i as int),
        decreases set.len() - i,
    {
        let ghost before = contexts_view(out@);
        out.push(set[i].copy());
        assert(contexts_view(out@) =~= before.push(context_view(set@[i as int])));
        assert(contexts_view(set@).take(i + 1) =~= contexts_view(set@).take(i as int).push(context_view(set@[i as int])));
        i = i + 1;
    }
    assert(contexts_view(set@).take(set.len() as int) =~= contexts_view(set@));
    out
}

/// The list whose entries a gate of the given type routes by.
pub open spec fn gate_list(kind: Option<Seq<char>>) -> Option<Seq<char>> {
    if kind == Some("deterministic-gate"@) {
        Some("cases"@)
    } else if kind == Some("randomised-gate"@) {
        Some("routes"@)
    } else {
        None
    }
}

/// Node `t` is named by the target of an entry of gate `gate`.
pub open spec fn gate_target(nodes: Seq<JsonData>, gate: int, t: int) -> bool {
    match gate_list(node_text(nodes[gate], "type"@)) {
        Some(list) => match node_field(nodes[gate], list) {
            Some(JsonData::Array(items)) => exists|k: int| 0 <= k < items.len() && #[trigger] named_target(nodes, items[k], "target"@) == Some(t),
            _ => false,
        },
        None => false,
    }
}

/// The choice at gate `gate` is settled at `v`: two different targets of that gate reach `v`.
pub open spec fn settles(nodes: Seq<JsonData>, g: Seq<Seq<usize>>, gate: int, v: int) -> bool {
    exists|t1: int, t2: int| t1 != t2 && #[trigger] gate_target(nodes, gate, t1) && #[trigger] gate_target(nodes, gate, t2)
        && reaches(g, t1, v) && reaches(g, t2, v)
}

/// The gates below `upto` that are settled at `v`, in increasing order.
pub open spec fn settling_gates(nodes: Seq<JsonData>, g: Seq<Seq<usize>>, v: int, upto: int) -> Seq<usize>
    decreases upto,
{
    if upto <= 0 {
        Seq::empty()
    } else {
        settling_gates(nodes, g, v, upto - 1) + if settles(nodes, g, upto - 1, v) {
            seq![(upto - 1) as usize]
        } else {
            Seq::empty()
        }
    }
}

/// For every node, the gates settled there.
pub open spec fn retirements(nodes: Seq<JsonData>, g: Seq<Seq<usize>>) -> Seq<Seq<usize>> {
    Seq::new(nodes.len(), |v: int| settling_gates(nodes, g, v, nodes.len() as int))
}

/// Every gate in the list is below `upto`.
proof fn lemma_settling_below(nodes: Seq<JsonData>, g: Seq<Seq<usize>>, v: int, upto: int)
    ensures
        forall|q: int| 0 <= q < settling_gates(nodes, g, v, upto).len() ==> #[trigger] settling_gates(nodes, g, v, upto)[q] < upto,
    decreases upto,
{
    if upto > 0 {
        lemma_settling_below(nodes, g, v, upto - 1);
        let a = settling_gates(nodes, g, v, upto - 1);
        let all = settling_gates(nodes, g, v, upto);
        assert forall|q: int| 0 <= q < all.len() implies #[trigger] all[q] < upto by {
            if q < a.len() {
                assert(all[q] == a[q]);
            }
        }
    }
}

/// For every node, the gates whose choice is settled there: the node is reachable from two
/// distinct targets of such a gate.
fn gate_retirements(nodes: &Vec<JsonValue>, edges: &Vec<Vec<usize>>, ids: &IdIndex) -> (result: Vec<Vec<usize>>)
    requires
        graph_wf(adjacency(*edges)),
        nodes.len() == edges.len(),
        ids.describes(array_data(*nodes)),
    ensures
        result.len() == nodes.len(),
        retired_view(result@) == retirements(array_data(*nodes), adjacency(*edges)),
{
    let ghost nd = array_data(*nodes);
    let ghost g = adjacency(*edges);
    let n = nodes.len();
    let mut retired: Vec<Vec<usize>> = Vec::new();
    let mut i: usize = 0;
    while i < n
        invariant
            i <= n,
            retired.len() == i,
            forall|v: int| 0 <= v < i ==> (#[trigger] retired@[v])@ == Seq::<usize>::empty(),
        decreases n - i,
    {
        retired.push(Vec::new());
        i = i + 1;
    }
    let mut gate: usize = 0;
    while gate < n
        invariant
            gate <= n,
            n == nodes.len(),
            n == edges.len(),
            nd == array_data(*nodes),
            g == adjacency(*edges),
            retired.len() == n,
            graph_wf(adjacency(*edges)),
            ids.describes(nd),
            forall|v: int| 0 <= v < n ==> (#[trigger] retired@[v])@ == settling_gates(nd, g, v, gate as int),
        decreases n - gate,
    {
        assert(nd[gate as int] == nodes[gate as int]@);
        let entries: Option<&str> = match text_of(&nodes[gate], "type") {
            Some(t) => if text_eq(t, "deterministic-gate") {
                Some("cases")
            } else if text_eq(t, "randomised-gate") {
                Some("routes")
            } else {
                None
            },
            None => None,
        };
        assert(match entries { Some(l) => gate_list(node_text(nd[gate as int], "type"@)) == Some(l@), None => gate_list(node_text(nd[gate as int], "type"@)) is None });
        let mut targets: Vec<usize> = Vec::new();
        if let Some(list) = entries {
            match field_of(&nodes[gate], list) {
                Some(v) => match v.array() {
                    Some(items) => {
                        let ghost itd = array_data(*items);
                        assert(node_field(nd[gate as int], list@) == Some(JsonData::Array(itd)));
                        let mut k: usize = 0;
                        while k < items.len()
                            invariant
                                k <= items.len(),
                                ids.describes(nd),
                                nd == array_data(*nodes),
                                itd == array_data(*items),
                                gate < nd.len(),
                                gate_list(node_text(nd[gate as int], "type"@)) == Some(list@),
                                node_field(nd[gate as int], list@) == Some(JsonData::Array(itd)),
                                forall|q: int| 0 <= q < targets.len() ==> #[trigger] targets@[q] < nd.len(),
                                forall|a: int, b: int| 0 <= a < b < targets.len() ==> #[trigger] targets@[a] != #[trigger] targets@[b],
                                forall|q: int| 0 <= q < targets.len() ==> gate_target(nd, gate as int, #[trigger] targets@[q] as int),
                                forall|j: int| 0 <= j < k && #[trigger] named_target(nd, itd[j], "target"@) is Some
                                    ==> targets@.contains(named_target(nd, itd[j], "target"@)->0 as usize),
                            decreases items.len() - k,
                        {
                            assert(itd[k as int] == items[k as int]@);
                            match text_of(&items[k], "target") {
                                Some(t) => match ids.lookup(t, Ghost(nd)) {
                                    Some(index) => {
                                        assert(named_target(nd, itd[k as int], "target"@) == Some(index as int));
                                        assert(gate_target(nd, gate as int, index as int));
                                        if !contains_index(&targets, index) {
                                            let ghost before = targets@;
                                            targets.push(index);
                                            assert forall|j: int| 0 <= j < k + 1 && #[trigger] named_target(nd, itd[j], "target"@) is Some
                                                implies targets@.contains(named_target(nd, itd[j], "target"@)->0 as usize) by {
                                                if j < k {
                                                    let q = choose|q: int| 0 <= q < before.len() && before[q] == named_target(nd, itd[j], "target"@)->0 as usize;
                                                    assert(targets@[q] == before[q]);
                                                } else {
                                                    assert(targets@[before.len() as int] == index);
                                                }
                                            }
                                        }
                                    },
                                    None => {
                                        assert(named_target(nd, itd[k as int], "target"@) is None);
                                    },
                                },
                                None => {
                                    assert(named_target(nd, itd[k as int], "target"@) is None);
                                },
                            }
                            k = k + 1;
                        }
                        proof {
                            assert forall|t: int| gate_target(nd, gate as int, t) implies #[trigger] targets@.contains(t as usize) by {
                                let j = choose|j: int| 0 <= j < itd.len() && #[trigger] named_target(nd, itd[j], "target"@) == Some(t);
                            }
                        }
                    },
                    None => {},
                },
                None => {},
            }
        }
        proof {
            assert forall|t: int| 0 <= t < n && gate_target(nd, gate as int, t) implies #[trigger] targets@.contains(t as usize) by {
                if !targets@.contains(t as usize) {
                    assert(gate_target(nd, gate as int, t));
                }
            }
        }
        let mut reach_count: Vec<u8> = vec![0u8; n];
        let mut t: usize = 0;
        while t < targets.len()
            invariant
                t <= targets.len(),
                n == nodes.len(),
                n == edges.len(),
                nd == array_data(*nodes),
                g == adjacency(*edges),
                nd.len() == n,
                gate < n,
                reach_count.len() == n,
                retired.len() == n,
                graph_wf(adjacency(*edges)),
                forall|q: int| 0 <= q < targets.len() ==> #[trigger] targets@[q] < nd.len(),
                forall|v: int| 0 <= v < n ==> #[trigger] reach_count@[v] <= 2,
                forall|v: int| 0 <= v < n ==> (#[trigger] reach_count@[v] >= 1 <==> exists|q: int| 0 <= q < t && reaches(g, #[trigger] targets@[q] as int, v)),
                forall|v: int| 0 <= v < n ==> (#[trigger] reach_count@[v] >= 2 <==> exists|q1: int, q2: int| 0 <= q1 < q2 < t
                    && reaches(g, #[trigger] targets@[q1] as int, v) && reaches(g, #[trigger] targets@[q2] as int, v)),
                forall|v: int| 0 <= v < n ==> (#[trigger] retired@[v])@ == settling_gates(nd, g, v, gate as int) + if reach_count@[v] >= 2 {
                    seq![gate]
                } else {
                    Seq::<usize>::empty()
                },
            decreases targets.len() - t,
        {
            let reachable = reachable_from(targets[t], edges);
            let ghost counts = reach_count@;
            let mut index: usize = 0;
            while index < n
                invariant
                    index <= n,
                    n == edges.len(),
                    g == adjacency(*edges),
                    t < targets.len(),
                    reachable.len() == n,
                    forall|b: int| 0 <= b < n ==> (#[trigger] reachable@[b] <==> reaches(g, targets@[t as int] as int, b)),
                    reach_count.len() == n,
                    counts.len() == n,
                    retired.len() == n,
                    gate < n,
                    forall|v: int| 0 <= v < n ==> #[trigger] reach_count@[v] <= 2,
                    forall|v: int| index <= v < n ==> #[trigger] reach_count@[v] == counts[v],
                    forall|v: int| 0 <= v < index ==> #[trigger] reach_count@[v] == if reachable@[v] && counts[v] < 2 {
                        (counts[v] + 1) as u8
                    } else {
                        counts[v]
                    },
                    forall|v: int| 0 <= v < n ==> (#[trigger] retired@[v])@ == settling_gates(nd, g, v, gate as int) + if reach_count@[v] >= 2 {
                        seq![gate]
                    } else {
                        Seq::<usize>::empty()
                    },
                decreases n - index,
            {
                if reachable[index] && reach_count[index] < 2 {
                    reach_count.set(index, reach_count[index] + 1);
                    if reach_count[index] == 2 {
                        let mut list: Vec<usize> = Vec::new();
                        std::mem::swap(&mut list, &mut retired[index]);
                        proof {
                            lemma_settling_below(nd, g, index as int, gate as int);
                            assert(!list@.contains(gate)) by {
                                if list@.contains(gate) {
                                    let q = choose|q: int| 0 <= q < list@.len() && list@[q] == gate;
                                    assert(settling_gates(nd, g, index as int, gate as int)[q] < gate);
                                }
                            }
                        }
                        if !contains_index(&list, gate) {
                            list.push(gate);
                        }
                        retired.set(index, list);
                    }
                }
                index = index + 1;
            }
            proof {
                assert forall|v: int| 0 <= v < n implies (#[trigger] reach_count@[v] >= 1 <==> exists|q: int| 0 <= q < t + 1
                    && reaches(g, #[trigger] targets@[q] as int, v)) by {
                    if reaches(g, targets@[t as int] as int, v) {
                        assert(reachable@[v]);
                    }
                }
                assert forall|v: int| 0 <= v < n implies (#[trigger] reach_count@[v] >= 2 <==> exists|q1: int, q2: int| 0 <= q1 < q2 < t + 1
                    && reaches(g, #[trigger] targets@[q1] as int, v) && reaches(g, #[trigger] targets@[q2] as int, v)) by {
                    if exists|q1: int, q2: int| 0 <= q1 < q2 < t + 1
                        && reaches(g, #[trigger] targets@[q1] as int, v) && reaches(g, #[trigger] targets@[q2] as int, v) {
                        let (q1, q2) = choose|q1: int, q2: int| 0 <= q1 < q2 < t + 1
                            && reaches(g, #[trigger] targets@[q1] as int, v) && reaches(g, #[trigger] targets@[q2] as int, v);
                        if q2 == t {
                            assert(counts[v] >= 1);
                            assert(reachable@[v]);
                        }
                    }
                    if reach_count@[v] >= 2 && counts[v] < 2 {
                        assert(reachable@[v]);
                        assert(counts[v] >= 1);
                        let q = choose|q: int| 0 <= q < t && reaches(g, #[trigger] targets@[q] as int, v);
                        assert(reaches(g, targets@[q] as int, v) && reaches(g, targets@[t as int] as int, v));
                    }
                }
            }
            t = t + 1;
        }
        proof {
            assert forall|v: int| 0 <= v < n implies (#[trigger] retired@[v])@ == settling_gates(nd, g, v, gate + 1) by {
                if reach_count@[v] >= 2 {
                    let (q1, q2) = choose|q1: int, q2: int| 0 <= q1 < q2 < targets.len()
                        && reaches(g, #[trigger] targets@[q1] as int, v) && reaches(g, #[trigger] targets@[q2] as int, v);
                    let t1 = targets@[q1] as int;
                    let t2 = targets@[q2] as int;
                    assert(gate_target(nd, gate as int, t1) && gate_target(nd, gate as int, t2));
                    assert(settles(nd, g, gate as int, v));
                } else {
                    if settles(nd, g, gate as int, v) {
                        let (t1, t2) = choose|t1: int, t2: int| t1 != t2 && #[trigger] gate_target(nd, gate as int, t1)
                            && #[trigger] gate_target(nd, gate as int, t2) && reaches(g, t1, v) && reaches(g, t2, v);
                        assert(0 <= t1 < n && 0 <= t2 < n) by {
                            reveal_with_fuel(crate::graph::algorithms::is_walk, 1);
                            let w1 = choose|w: Seq<int>| #[trigger] crate::graph::algorithms::is_walk(g, w) && w[0] == t1 && w.last() == v;
                            let w2 = choose|w: Seq<int>| #[trigger] crate::graph::algorithms::is_walk(g, w) && w[0] == t2 && w.last() == v;
                        }
                        assert(targets@.contains(t1 as usize));
                        assert(targets@.contains(t2 as usize));
                        let q1 = choose|q: int| 0 <= q < targets.len() && targets@[q] == t1 as usize;
                        let q2 = choose|q: int| 0 <= q < targets.len() && targets@[q] == t2 as usize;
                        if q1 < q2 {
                            assert(reaches(g, targets@[q1] as int, v) && reaches(g, targets@[q2] as int, v));
                        } else {
                            assert(reaches(g, targets@[q2] as int, v) && reaches(g, targets@[q1] as int, v));
                        }
                    }
                }
            }
        }
        gate = gate + 1;
    }
    proof {
        assert(retired_view(retired@) =~= retirements(nd, g));
    }
    retired
}

/// Appends an issue of the activity analysis.
fn push_activity_issue(issues: &mut Vec<IssueData>, code: &str, path: String, message: &str, nodes: Ghost<Seq<JsonData>>, from: Ghost<int>)
    requires
        activity_issue(nodes@, (path@, code@, message@)),
        activity_issues(nodes@, old(issues)@, from@),
        0 <= from@ <= old(issues).len(),
    ensures
        activity_issues(nodes@, final(issues)@, from@),
        final(issues)@.take(from@) == old(issues)@.take(from@),
        final(issues).len() == old(issues).len() + 1,
        issue_views(final(issues)@) == issue_views(old(issues)@).push((path@, code@, message@)),
{
    let ghost before = issues@;
    let ghost seen = (path@, code@, message@);
    issues.push(issue(code, path, message));
    proof {
        assert(issue_views(issues@) =~= issue_views(before).push(seen));
        assert forall|k: int| from@ <= k < issues@.len() implies activity_issue(nodes@, #[trigger] issues@[k]@) by {
            if k < before.len() {
                assert(issues@[k] == before[k]);
            }
        }
        assert(issues@.take(from@) =~= before.take(from@));
    }
}

/// Strictly decreasing.
pub open spec fn strictly_descending(s: Seq<usize>) -> bool {
    forall|a: int, b: int| 0 <= a < b < s.len() ==> (#[trigger] s[a]) > (#[trigger] s[b])
}

/// Inserts `x` into a list kept in decreasing order, so that the smallest comes last.
fn insert_descending(ready: &mut Vec<usize>, x: usize)
    requires
        strictly_descending(old(ready)@),
        !old(ready)@.contains(x),
    ensures
        final(ready).len() == old(ready).len() + 1,
        strictly_descending(final(ready)@),
        forall|q: usize| #[trigger] final(ready)@.contains(q) <==> old(ready)@.contains(q) || q == x,
{
    let ghost before = ready@;
    let mut i: usize = 0;
    while i < ready.len() && ready[i] > x
        invariant
            i <= ready.len(),
            ready@ == before,
            forall|k: int| 0 <= k < i ==> #[trigger] before[k] > x,
        decreases ready.len() - i,
    {
        i = i + 1;
    }
    proof {
        if i < before.len() {
            assert(before[i as int] != x);
            assert(before[i as int] < x);
        }
    }
    ready.insert(i, x);
    proof {
        let after = ready@;
        assert(after == before.insert(i as int, x));
        assert forall|a: int, b: int| 0 <= a < b < after.len() implies (#[trigger] after[a]) > (#[trigger] after[b]) by {
            if b < i {
                assert(after[a] == before[a] && after[b] == before[b]);
            } else if b == i {
                assert(after[a] == before[a]);
            } else if a < i {
                assert(after[a] == before[a] && after[b] == before[b - 1]);
            } else if a == i {
                assert(after[b] == before[b - 1]);
                assert(before[i as int] < x);
                if b - 1 > i {
                    assert(before[i as int] > before[b - 1]);
                }
            } else {
                assert(after[a] == before[a - 1] && after[b] == before[b - 1]);
            }
        }
        assert forall|q: usize| #[trigger] after.contains(q) <==> before.contains(q) || q == x by {
            if after.contains(q) {
                let k = choose|k: int| 0 <= k < after.len() && after[k] == q;
                if k < i {
                    assert(before[k] == q);
                } else if k > i {
                    assert(before[k - 1] == q);
                }
            }
            if before.contains(q) {
                let k = choose|k: int| 0 <= k < before.len() && before[k] == q;
                if k < i {
                    assert(after[k] == q);
                } else {
                    assert(after[k + 1] == q);
                }
            }
            if q == x {
                assert(after[i as int] == x);
            }
        }
    }
}

/// Node `v` can come next after the nodes of `done`: it is not among them, and every node
/// with an edge into it is.
pub open spec fn ready_after(g: Seq<Seq<usize>>, done: Seq<usize>, v: int) -> bool {
    &&& 0 <= v < g.len()
    &&& !done.contains(v as usize)
    &&& forall|u: int| 0 <= u < g.len() && #[trigger] has_edge(g, u, v) ==> done.contains(u as usize)
}

/// `taken` takes, each time, the smallest node ready after those already taken, until no node
/// is ready.
pub open spec fn smallest_ready_first(g: Seq<Seq<usize>>, taken: Seq<usize>) -> bool {
    &&& forall|k: int| 0 <= k < taken.len() ==> ready_after(g, taken.take(k), #[trigger] taken[k] as int)
    &&& forall|k: int, w: int| 0 <= k < taken.len() && 0 <= w < taken[k] ==> !#[trigger] ready_after(g, taken.take(k), w)
    &&& forall|v: int| !ready_after(g, taken, v)
}

/// Whether every node of `list` is marked done.
fn all_done(list: &Vec<usize>, done: &Vec<bool>) -> (result: bool)
    requires
        forall|k: int| 0 <= k < list.len() ==> #[trigger] list@[k] < done.len(),
    ensures
        result == forall|k: int| 0 <= k < list.len() ==> done@[#[trigger] list@[k] as int],
{
    let mut k: usize = 0;
    while k < list.len()
        invariant
            k <= list.len(),
            forall|q: int| 0 <= q < list.len() ==> #[trigger] list@[q] < done.len(),
            forall|q: int| 0 <= q < k ==> done@[#[trigger] list@[q] as int],
        decreases list.len() - k,
    {
        if !done[list[k]] {
            return false;
        }
        k = k + 1;
    }
    true
}

/// With the reversed edges and the done marks of `sorted`, a node's predecessors are all done
/// exactly when the reversed list of the node is.
proof fn lemma_preds_done(g: Seq<Seq<usize>>, r: Seq<Seq<usize>>, done: Seq<bool>, sorted: Seq<usize>, t: int)
    requires
        reverses(r, g),
        graph_wf(r),
        done.len() == g.len(),
        0 <= t < g.len(),
        forall|v: int| 0 <= v < g.len() ==> (#[trigger] done[v] <==> sorted.contains(v as usize)),
    ensures
        (forall|k: int| 0 <= k < r[t].len() ==> done[#[trigger] r[t][k] as int])
            <==> (forall|u: int| 0 <= u < g.len() && #[trigger] has_edge(g, u, t) ==> sorted.contains(u as usize)),
{
    if forall|k: int| 0 <= k < r[t].len() ==> done[#[trigger] r[t][k] as int] {
        assert forall|u: int| 0 <= u < g.len() && #[trigger] has_edge(g, u, t) implies sorted.contains(u as usize) by {
            assert(has_edge(r, t, u));
            let k = choose|k: int| 0 <= k < r[t].len() && r[t][k] == u as usize;
            assert(done[r[t][k] as int]);
        }
    }
    if forall|u: int| 0 <= u < g.len() && #[trigger] has_edge(g, u, t) ==> sorted.contains(u as usize) {
        assert forall|k: int| 0 <= k < r[t].len() implies done[#[trigger] r[t][k] as int] by {
            let u = r[t][k] as int;
            assert(u < r.len());
            assert(r[t].contains(u as usize));
            assert(has_edge(r, t, u));
            assert(has_edge(g, u, t));
        }
    }
}

/// The nodes in topological order, the smallest ready index first.
fn topological_sequence(edges: &Vec<Vec<usize>>) -> (result: Vec<usize>)
    requires
        graph_wf(adjacency(*edges)),
    ensures
        forall|q: int| 0 <= q < result.len() ==> #[trigger] result@[q] < edges.len(),
        smallest_ready_first(adjacency(*edges), result@),
{
    let ghost g = adjacency(*edges);
    let n = edges.len();
    let rev = reverse_edges(edges);
    let ghost r = adjacency(rev);
    let mut done: Vec<bool> = vec![false; n];
    let mut queued: Vec<bool> = vec![false; n];
    let mut ready: Vec<usize> = Vec::new();
    let mut sorted: Vec<usize> = Vec::new();
    let mut i: usize = n;
    while i > 0
        invariant
            i <= n,
            n == edges.len(),
            g == adjacency(*edges),
            r == adjacency(rev),
            reverses(r, g),
            graph_wf(r),
            graph_wf(g),
            done.len() == n,
            queued.len() == n,
            sorted@ == Seq::<usize>::empty(),
            forall|v: int| 0 <= v < n ==> !#[trigger] done@[v],
            strictly_descending(ready@),
            forall|q: int| 0 <= q < ready.len() ==> #[trigger] ready@[q] >= i,
            forall|v: int| 0 <= v < n ==> (#[trigger] queued@[v] <==> ready@.contains(v as usize)),
            forall|v: int| #[trigger] ready_after(g, sorted@, v) && v >= i ==> ready@.contains(v as usize),
            forall|v: usize| #[trigger] ready@.contains(v) ==> ready_after(g, sorted@, v as int),
        decreases i,
    {
        i = i - 1;
        assert(rev@[i as int]@ == r[i as int]);
        assert forall|k: int| 0 <= k < rev@[i as int].len() implies #[trigger] rev@[i as int]@[k] < done.len() by {
            assert(r[i as int][k] < r.len());
        }
        proof {
            lemma_preds_done(g, r, done@, sorted@, i as int);
        }
        if all_done(&rev[i], &done) {
            let ghost before = ready@;
            proof {
                assert forall|a: int, b: int| 0 <= a < b < ready@.push(i).len() implies (#[trigger] ready@.push(i)[a]) > (#[trigger] ready@.push(i)[b]) by {
                    if b < ready.len() {
                    } else {
                        assert(ready@.push(i)[a] == before[a]);
                        assert(before[a] >= i + 1);
                    }
                }
            }
            ready.push(i);
            queued.set(i, true);
            proof {
                assert forall|v: usize| #[trigger] ready@.contains(v) <==> before.contains(v) || v == i by {
                    if ready@.contains(v) {
                        let k = choose|k: int| 0 <= k < ready@.len() && ready@[k] == v;
                        if k < before.len() {
                            assert(before[k] == v);
                        }
                    }
                    if before.contains(v) {
                        let k = choose|k: int| 0 <= k < before.len() && before[k] == v;
                        assert(ready@[k] == v);
                    }
                    if v == i {
                        assert(ready@[before.len() as int] == i);
                    }
                }
                assert(!before.contains(i)) by {
                    if before.contains(i) {
                        let k = choose|k: int| 0 <= k < before.len() && before[k] == i;
                        assert(before[k] >= i + 1);
                    }
                }
            }
        } else {
            proof {
                assert(!ready_after(g, sorted@, i as int));
                assert(!ready@.contains(i)) by {
                    if ready@.contains(i) {
                        let k = choose|k: int| 0 <= k < ready@.len() && ready@[k] == i;
                        assert(ready@[k] >= i + 1);
                    }
                }
            }
        }
    }
    proof {
        lemma_count_true_none(done@);
    }
    while ready.len() > 0
        invariant
            n == edges.len(),
            g == adjacency(*edges),
            r == adjacency(rev),
            reverses(r, g),
            graph_wf(r),
            graph_wf(g),
            g.len() == n,
            done.len() == n,
            queued.len() == n,
            count_true(done@) == sorted.len(),
            forall|v: int| 0 <= v < n ==> (#[trigger] done@[v] <==> sorted@.contains(v as usize)),
            forall|q: int| 0 <= q < sorted.len() ==> #[trigger] sorted@[q] < n,
            strictly_descending(ready@),
            forall|v: int| 0 <= v < n ==> (#[trigger] queued@[v] <==> ready@.contains(v as usize)),
            forall|v: usize| #[trigger] ready@.contains(v) <==> ready_after(g, sorted@, v as int),
            forall|k: int| 0 <= k < sorted.len() ==> ready_after(g, sorted@.take(k), #[trigger] sorted@[k] as int),
            forall|k: int, w: int| 0 <= k < sorted.len() && 0 <= w < sorted@[k] ==> !#[trigger] ready_after(g, sorted@.take(k), w),
        decreases n - sorted.len(),
    {
        proof {
            lemma_count_true_bound(done@);
        }
        let ghost before_ready = ready@;
        let ghost before_sorted = sorted@;
        let node = ready.pop().unwrap();
        proof {
            assert(before_ready.last() == node);
            assert(before_ready.contains(node));
            assert(ready_after(g, before_sorted, node as int));
            assert forall|w: int| 0 <= w < node implies !ready_after(g, before_sorted, w) by {
                if ready_after(g, before_sorted, w) {
                    assert(before_ready.contains(w as usize));
                    let k = choose|k: int| 0 <= k < before_ready.len() && before_ready[k] == w as usize;
                    assert(k < before_ready.len() - 1);
                    assert(before_ready[k] > before_ready[before_ready.len() - 1]);
                }
            }
            assert forall|v: usize| #[trigger] ready@.contains(v) <==> before_ready.contains(v) && v != node by {
                if ready@.contains(v) {
                    let k = choose|k: int| 0 <= k < ready@.len() && ready@[k] == v;
                    assert(before_ready[k] == v);
                    assert(before_ready[k] > before_ready[before_ready.len() - 1]);
                }
                if before_ready.contains(v) && v != node {
                    let k = choose|k: int| 0 <= k < before_ready.len() && before_ready[k] == v;
                    assert(k != before_ready.len() - 1);
                    assert(ready@[k] == v);
                }
            }
            lemma_count_true_set(done@, node as int);
        }
        sorted.push(node);
        done.set(node, true);
        queued.set(node, false);
        proof {
            let s2 = sorted@;
            assert(s2 == before_sorted.push(node));
            assert forall|v: int| 0 <= v < n implies (#[trigger] done@[v] <==> s2.contains(v as usize)) by {
                if s2.contains(v as usize) && v != node {
                    let k = choose|k: int| 0 <= k < s2.len() && s2[k] == v as usize;
                    assert(k < before_sorted.len());
                    assert(before_sorted[k] == v as usize);
                }
                if before_sorted.contains(v as usize) {
                    let k = choose|k: int| 0 <= k < before_sorted.len() && before_sorted[k] == v as usize;
                    assert(s2[k] == v as usize);
                }
                assert(s2[before_sorted.len() as int] == node);
            }
            assert(s2.take(before_sorted.len() as int) =~= before_sorted);
            assert forall|k: int| 0 <= k < s2.len() implies #[trigger] s2.take(k) == before_sorted.take(k) || k == before_sorted.len() by {
                if k < before_sorted.len() {
                    assert(s2.take(k) =~= before_sorted.take(k));
                }
            }
            assert forall|k: int| 0 <= k < s2.len() implies ready_after(g, s2.take(k), #[trigger] s2[k] as int) by {
                if k < before_sorted.len() {
                    assert(s2.take(k) =~= before_sorted.take(k));
                    assert(s2[k] == before_sorted[k]);
                }
            }
            assert forall|k: int, w: int| 0 <= k < s2.len() && 0 <= w < s2[k] implies !#[trigger] ready_after(g, s2.take(k), w) by {
                if k < before_sorted.len() {
                    assert(s2.take(k) =~= before_sorted.take(k));
                    assert(s2[k] == before_sorted[k]);
                }
            }
            assert forall|v: int| 0 <= v < n && !has_edge(g, node as int, v) implies
                (ready_after(g, s2, v) <==> ready_after(g, before_sorted, v) && v != node) by {
                if ready_after(g, before_sorted, v) && v != node {
                    assert(!s2.contains(v as usize)) by {
                        if s2.contains(v as usize) {
                            let k = choose|k: int| 0 <= k < s2.len() && s2[k] == v as usize;
                            assert(k < before_sorted.len());
                            assert(before_sorted[k] == v as usize);
                        }
                    }
                    assert forall|u: int| 0 <= u < g.len() && #[trigger] has_edge(g, u, v) implies s2.contains(u as usize) by {
                        let k = choose|k: int| 0 <= k < before_sorted.len() && before_sorted[k] == u as usize;
                        assert(s2[k] == u as usize);
                    }
                }
                if ready_after(g, s2, v) {
                    assert(v != node);
                    assert(!before_sorted.contains(v as usize)) by {
                        if before_sorted.contains(v as usize) {
                            let k = choose|k: int| 0 <= k < before_sorted.len() && before_sorted[k] == v as usize;
                            assert(s2[k] == v as usize);
                        }
                    }
                    assert forall|u: int| 0 <= u < g.len() && #[trigger] has_edge(g, u, v) implies before_sorted.contains(u as usize) by {
                        assert(s2.contains(u as usize));
                        let k = choose|k: int| 0 <= k < s2.len() && s2[k] == u as usize;
                        assert(u != node);
                        assert(k < before_sorted.len());
                        assert(before_sorted[k] == u as usize);
                    }
                }
            }
            assert forall|v: int| 0 <= v < n && has_edge(g, node as int, v) implies !ready_after(g, before_sorted, v) by {
                assert(!before_sorted.contains(node));
            }
        }
        let targets = &edges[node];
        assert(targets@ == g[node as int]);
        let mut k: usize = 0;
        while k < targets.len()
            invariant
                k <= targets.len(),
                node < n,
                n == edges.len(),
                targets@ == g[node as int],
                g == adjacency(*edges),
                r == adjacency(rev),
                reverses(r, g),
                graph_wf(r),
                graph_wf(g),
                g.len() == n,
                done.len() == n,
                queued.len() == n,
                sorted@.len() > 0,
                sorted@.last() == node,
                forall|v: int| 0 <= v < n ==> (#[trigger] done@[v] <==> sorted@.contains(v as usize)),
                strictly_descending(ready@),
                forall|v: int| 0 <= v < n ==> (#[trigger] queued@[v] <==> ready@.contains(v as usize)),
                forall|v: usize| #[trigger] ready@.contains(v) <==> ready_after(g, sorted@, v as int)
                    && (!has_edge(g, node as int, v as int) || targets@.take(k as int).contains(v)),
            decreases targets.len() - k,
        {
            let t = targets[k];
            assert(g[node as int][k as int] == t);
            assert(has_edge(g, node as int, t as int));
            assert(rev@[t as int]@ == r[t as int]);
            assert forall|q: int| 0 <= q < rev@[t as int].len() implies #[trigger] rev@[t as int]@[q] < done.len() by {
                assert(r[t as int][q] < r.len());
            }
            proof {
                lemma_preds_done(g, r, done@, sorted@, t as int);
                assert(targets@.take(k + 1) =~= targets@.take(k as int).push(t));
            }
            if !done[t] && !queued[t] && all_done(&rev[t], &done) {
                let ghost before = ready@;
                insert_descending(&mut ready, t);
                queued.set(t, true);
                proof {
                    assert forall|v: usize| #[trigger] ready@.contains(v) <==> ready_after(g, sorted@, v as int)
                        && (!has_edge(g, node as int, v as int) || targets@.take(k + 1).contains(v)) by {
                        if v == t {
                            assert(targets@.take(k + 1)[k as int] == t);
                            assert(targets@.take(k + 1).contains(t));
                        }
                    }
                }
            } else {
                proof {
                    assert forall|v: usize| #[trigger] ready@.contains(v) <==> ready_after(g, sorted@, v as int)
                        && (!has_edge(g, node as int, v as int) || targets@.take(k + 1).contains(v)) by {
                        if v == t {
                            if ready_after(g, sorted@, t as int) {
                                assert(queued@[t as int]);
                                assert(ready@.contains(t));
                            }
                        }
                    }
                }
            }
            k = k + 1;
        }
        proof {
            assert(targets@.take(targets.len() as int) =~= targets@);
            assert forall|v: usize| #[trigger] ready@.contains(v) <==> ready_after(g, sorted@, v as int) by {
                if ready_after(g, sorted@, v as int) && has_edge(g, node as int, v as int) {
                    assert(targets@.contains(v));
                }
            }
            lemma_count_true_bound(done@);
        }
    }
    proof {
        assert forall|v: int| !ready_after(g, sorted@, v) by {
            if ready_after(g, sorted@, v) {
                assert(ready@.contains(v as usize));
            }
        }
    }
    sorted
}

/// Whether the contexts hold more than one distinct stack of flows.
fn several_flow_shapes(set: &Vec<ActivityContext>) -> (result: bool)
    ensures
        result == exists|j: int| 0 < j < set.len() && (#[trigger] contexts_view(set@)[j]).0 != contexts_view(set@)[0].0,
{
    let mut i: usize = 1;
    while i < set.len()
        invariant
            i >= 1,
            forall|j: int| 0 < j < i && j < set.len() ==> (#[trigger] contexts_view(set@)[j]).0 == contexts_view(set@)[0].0,
        decreases set.len() - i,
    {
        assert(contexts_view(set@)[i as int] == context_view(set@[i as int]));
        assert(contexts_view(set@)[0] == context_view(set@[0]));
        if !set[0].same_flows(&set[i]) {
            return true;
        }
        i = i + 1;
    }
    false
}

/// Every context of `items`, in order, arriving at `target`.
pub open spec fn arrive_all(sets: Seq<Seq<ContextView>>, target: int, items: Seq<ContextView>, retired: Seq<Seq<usize>>) -> Seq<Seq<ContextView>>
    decreases items.len(),
{
    if items.len() == 0 {
        sets
    } else {
        arrive(arrive_all(sets, target, items.drop_last(), retired), target, items.last(), retired)
    }
}

proof fn lemma_arrive_step(sets: Seq<Seq<ContextView>>, target: int, items: Seq<ContextView>, p: int, retired: Seq<Seq<usize>>)
    requires
        0 <= p < items.len(),
    ensures
        arrive_all(sets, target, items.take(p + 1), retired) == arrive(arrive_all(sets, target, items.take(p), retired), target, items[p], retired),
{
    assert(items.take(p + 1).drop_last() =~= items.take(p));
}

/// Arrivals change only the set at the target, and keep the number of sets.
proof fn lemma_arrive_all_len(sets: Seq<Seq<ContextView>>, target: int, items: Seq<ContextView>, retired: Seq<Seq<usize>>)
    requires
        0 <= target < sets.len(),
    ensures
        arrive_all(sets, target, items, retired).len() == sets.len(),
    decreases items.len(),
{
    if items.len() > 0 {
        lemma_arrive_all_len(sets, target, items.drop_last(), retired);
    }
}

/// The node a member of `node` names, when exactly one node has that identifier.
pub open spec fn named_target(nodes: Seq<JsonData>, node: JsonData, key: Seq<char>) -> Option<int> {
    match node_text(node, key) {
        Some(t) => id_target(nodes, t),
        None => None,
    }
}

/// The contexts of node `index` passed on to the node its `next` names, unless that is a
/// convergence node.
pub open spec fn next_passed(sets: Seq<Seq<ContextView>>, nodes: Seq<JsonData>, node: JsonData, index: int, retired: Seq<Seq<usize>>) -> Seq<Seq<ContextView>> {
    match named_target(nodes, node, "next"@) {
        Some(t) => if node_text(nodes[t], "type"@) == Some("converge"@) {
            sets
        } else {
            arrive_all(sets, t, sets[index], retired)
        },
        None => sets,
    }
}

/// Each context with `gate` choosing `target`.
pub open spec fn chosen_all(items: Seq<ContextView>, gate: usize, target: usize) -> Seq<ContextView> {
    Seq::new(items.len(), |p: int| choose_cv(items[p], gate, target))
}

/// Each context with flow `flow` of fan-out `fan` opened.
pub open spec fn flowed_all(items: Seq<ContextView>, fan: usize, flow: Seq<char>) -> Seq<ContextView> {
    Seq::new(items.len(), |p: int| flow_cv(items[p], fan, flow))
}

/// The contexts `produced` at gate `index` passed to the target of each entry that names a
/// node, with that gate choosing the target.
pub open spec fn gate_passed(
    sets: Seq<Seq<ContextView>>,
    nodes: Seq<JsonData>,
    entries: Seq<JsonData>,
    index: int,
    produced: Seq<ContextView>,
    retired: Seq<Seq<usize>>,
) -> Seq<Seq<ContextView>>
    decreases entries.len(),
{
    if entries.len() == 0 {
        sets
    } else {
        let before = gate_passed(sets, nodes, entries.drop_last(), index, produced, retired);
        match named_target(nodes, entries.last(), "target"@) {
            Some(t) => arrive_all(before, t, chosen_all(produced, index as usize, t as usize), retired),
            None => before,
        }
    }
}

/// The contexts of fan-out `index` passed to the target of each branch that is an object
/// with an `id` and a target naming a node, with the branch's flow opened.
pub open spec fn fan_passed(
    sets: Seq<Seq<ContextView>>,
    nodes: Seq<JsonData>,
    branches: Seq<JsonData>,
    index: int,
    retired: Seq<Seq<usize>>,
) -> Seq<Seq<ContextView>>
    decreases branches.len(),
{
    if branches.len() == 0 {
        sets
    } else {
        let before = fan_passed(sets, nodes, branches.drop_last(), index, retired);
        let b = branches.last();
        if b is Object && node_text(b, "id"@) is Some && named_target(nodes, b, "target"@) is Some {
            arrive_all(
                before,
                named_target(nodes, b, "target"@)->0,
                flowed_all(before[index], index as usize, node_text(b, "id"@)->0),
                retired,
            )
        } else {
            before
        }
    }
}

/// Passes the contexts of node `index` to the node its `next` names, unless that is a
/// convergence node.
fn propagate_next(
    node: &JsonValue,
    index: usize,
    nodes: &Vec<JsonValue>,
    ids: &IdIndex,
    retired: &Vec<Vec<usize>>,
    contexts: &mut Vec<Vec<ActivityContext>>,
)
    requires
        ids.describes(array_data(*nodes)),
        index < old(contexts).len(),
        old(contexts).len() == nodes.len(),
        retired.len() == nodes.len(),
    ensures
        final(contexts).len() == old(contexts).len(),
        sets_view(final(contexts)@) == next_passed(sets_view(old(contexts)@), array_data(*nodes), node@, index as int,
            retired_view(retired@)),
{
    let ghost nd = array_data(*nodes);
    let ghost start = sets_view(contexts@);
    let ghost rv = retired_view(retired@);
    let target = match text_of(node, "next") {
        Some(id) => match ids.lookup(id, Ghost(array_data(*nodes))) {
            Some(t) => t,
            None => return,
        },
        None => return,
    };
    assert(nd[target as int] == nodes[target as int]@);
    let into_converge = match text_of(&nodes[target], "type") {
        Some(t) => text_eq(t, "converge"),
        None => false,
    };
    if into_converge {
        return;
    }
    let produced = copy_contexts(&contexts[index]);
    let ghost items = contexts_view(produced@);
    assert(items == start[index as int]);
    let mut p: usize = 0;
    assert(items.take(0) =~= Seq::<ContextView>::empty());
    while p < produced.len()
        invariant
            p <= produced.len(),
            contexts.len() == nodes.len(),
            retired.len() == nodes.len(),
            target < nodes.len(),
            items == contexts_view(produced@),
            rv == retired_view(retired@),
            sets_view(contexts@) == arrive_all(start, target as int, items.take(p as int), rv),
        decreases produced.len() - p,
    {
        let context = produced[p].copy();
        insert_context(target, context, retired, contexts);
        proof {
            lemma_arrive_step(start, target as int, items, p as int, rv);
        }
        p = p + 1;
    }
    assert(items.take(produced.len() as int) =~= items);
}

/// Passes the contexts of a gate to each target it can choose, recording the choice.
fn propagate_gate(
    node: &JsonValue,
    index: usize,
    list: &str,
    nodes: &Vec<JsonValue>,
    ids: &IdIndex,
    retired: &Vec<Vec<usize>>,
    contexts: &mut Vec<Vec<ActivityContext>>,
)
    requires
        ids.describes(array_data(*nodes)),
        index < old(contexts).len(),
        old(contexts).len() == nodes.len(),
        retired.len() == nodes.len(),
    ensures
        final(contexts).len() == old(contexts).len(),
        sets_view(final(contexts)@) == match node_field(node@, list@) {
            Some(JsonData::Array(entries)) => gate_passed(sets_view(old(contexts)@), array_data(*nodes), entries, index as int,
                sets_view(old(contexts)@)[index as int], retired_view(retired@)),
            _ => sets_view(old(contexts)@),
        },
{
    let ghost nd = array_data(*nodes);
    let ghost start = sets_view(contexts@);
    let ghost rv = retired_view(retired@);
    let entries = match field_of(node, list) {
        Some(v) => match v.array() {
            Some(items) => items,
            None => return,
        },
        None => return,
    };
    let ghost ed = array_data(*entries);
    let produced = copy_contexts(&contexts[index]);
    let ghost pv = contexts_view(produced@);
    assert(pv == start[index as int]);
    let mut k: usize = 0;
    assert(ed.take(0) =~= Seq::<JsonData>::empty());
    while k < entries.len()
        invariant
            k <= entries.len(),
            contexts.len() == nodes.len(),
            retired.len() == nodes.len(),
            ids.describes(array_data(*nodes)),
            nd == array_data(*nodes),
            ed == array_data(*entries),
            pv == contexts_view(produced@),
            rv == retired_view(retired@),
            sets_view(contexts@) == gate_passed(start, nd, ed.take(k as int), index as int, pv, rv),
        decreases entries.len() - k,
    {
        let ghost before = sets_view(contexts@);
        assert(ed.take(k + 1).drop_last() =~= ed.take(k as int));
        assert(ed[k as int] == entries[k as int]@);
        match text_of(&entries[k], "target") {
            Some(id) => match ids.lookup(id, Ghost(array_data(*nodes))) {
                Some(target) => {
                    let ghost items = chosen_all(pv, index, target);
                    let mut p: usize = 0;
                    assert(items.take(0) =~= Seq::<ContextView>::empty());
                    while p < produced.len()
                        invariant
                            p <= produced.len(),
                            contexts.len() == nodes.len(),
                            retired.len() == nodes.len(),
                            target < nodes.len(),
                            pv == contexts_view(produced@),
                            items == chosen_all(pv, index, target),
                            rv == retired_view(retired@),
                            sets_view(contexts@) == arrive_all(before, target as int, items.take(p as int), rv),
                        decreases produced.len() - p,
                    {
                        let mut context = produced[p].copy();
                        context.choose_gate(index, target);
                        assert(context_view(context) == items[p as int]);
                        insert_context(target, context, retired, contexts);
                        proof {
                            lemma_arrive_step(before, target as int, items, p as int, rv);
                        }
                        p = p + 1;
                    }
                    assert(items.take(produced.len() as int) =~= items);
                },
                None => {},
            },
            None => {},
        }
        k = k + 1;
    }
    assert(ed.take(entries.len() as int) =~= ed);
}

/// Passes the contexts of a fan-out to each branch target, with the branch's flow opened.
fn propagate_fan_out(
    node: &JsonValue,
    index: usize,
    nodes: &Vec<JsonValue>,
    ids: &IdIndex,
    retired: &Vec<Vec<usize>>,
    contexts: &mut Vec<Vec<ActivityContext>>,
)
    requires
        ids.describes(array_data(*nodes)),
        index < old(contexts).len(),
        old(contexts).len() == nodes.len(),
        retired.len() == nodes.len(),
    ensures
        final(contexts).len() == old(contexts).len(),
        sets_view(final(contexts)@) == match node_field(node@, "branches"@) {
            Some(JsonData::Array(branches)) => fan_passed(sets_view(old(contexts)@), array_data(*nodes), branches, index as int,
                retired_view(retired@)),
            _ => sets_view(old(contexts)@),
        },
{
    let ghost nd = array_data(*nodes);
    let ghost start = sets_view(contexts@);
    let ghost rv = retired_view(retired@);
    let branches = match field_of(node, "branches") {
        Some(v) => match v.array() {
            Some(items) => items,
            None => return,
        },
        None => return,
    };
    let ghost bd = array_data(*branches);
    let mut k: usize = 0;
    assert(bd.take(0) =~= Seq::<JsonData>::empty());
    while k < branches.len()
        invariant
            k <= branches.len(),
            index < contexts.len(),
            contexts.len() == nodes.len(),
            retired.len() == nodes.len(),
            ids.describes(array_data(*nodes)),
            nd == array_data(*nodes),
            bd == array_data(*branches),
            rv == retired_view(retired@),
            sets_view(contexts@) == fan_passed(start, nd, bd.take(k as int), index as int, rv),
        decreases branches.len() - k,
    {
        let ghost before = sets_view(contexts@);
        assert(bd.take(k + 1).drop_last() =~= bd.take(k as int));
        assert(bd[k as int] == branches[k as int]@);
        let branch = &branches[k];
        if branch.object().is_some() {
            match text_of(branch, "id") {
                Some(flow) => match text_of(branch, "target") {
                    Some(id) => match ids.lookup(id, Ghost(array_data(*nodes))) {
                        Some(target) => {
                            let source = copy_contexts(&contexts[index]);
                            let ghost sv = contexts_view(source@);
                            assert(sv == before[index as int]);
                            let ghost items = flowed_all(sv, index, flow@);
                            let mut p: usize = 0;
                            assert(items.take(0) =~= Seq::<ContextView>::empty());
                            while p < source.len()
                                invariant
                                    p <= source.len(),
                                    index < contexts.len(),
                                    contexts.len() == nodes.len(),
                                    retired.len() == nodes.len(),
                                    target < nodes.len(),
                                    sv == contexts_view(source@),
                                    items == flowed_all(sv, index, flow@),
                                    rv == retired_view(retired@),
                                    sets_view(contexts@) == arrive_all(before, target as int, items.take(p as int), rv),
                                decreases source.len() - p,
                            {
                                let context = source[p].with_flow(index, flow);
                                assert(context_view(context) == items[p as int]);
                                insert_context(target, context, retired, contexts);
                                proof {
                                    lemma_arrive_step(before, target as int, items, p as int, rv);
                                }
                                p = p + 1;
                            }
                            assert(items.take(source.len() as int) =~= items);
                        },
                        None => {},
                    },
                    None => {},
                },
                None => {},
            }
        }
        k = k + 1;
    }
    assert(bd.take(branches.len() as int) =~= bd);
}

/// Flow `flow` is open somewhere in the stack.
pub open spec fn flow_open(flows: Seq<(usize, Seq<char>)>, flow: Seq<char>) -> bool {
    exists|q: int| 0 <= q < flows.len() && (#[trigger] flows[q]).1 == flow
}

/// What one context of a convergence input's source contributes: for an input keyed by a
/// branch flow, the context with that flow closed when it is the innermost open flow, and
/// otherwise the message of the issue it raises (the flow is suspended under another, or not
/// active); for any other input, the context itself.
pub open spec fn remainder_of(c: ContextView, flow: Seq<char>, is_branch_flow: bool) -> Result<ContextView, Seq<char>> {
    if !is_branch_flow {
        Ok(c)
    } else if c.0.len() > 0 && c.0.last().1 == flow {
        Ok((c.0.drop_last(), c.1))
    } else if c.0.len() > 0 && flow_open(c.0, flow) {
        Err("suspended parent flow cannot be consumed before child recombination"@)
    } else {
        Err("flow is not active at the declared source"@)
    }
}

/// The distinct contexts the source contexts contribute, in order.
pub open spec fn remainders(source: Seq<ContextView>, flow: Seq<char>, is_branch_flow: bool) -> Seq<ContextView>
    decreases source.len(),
{
    if source.len() == 0 {
        Seq::empty()
    } else {
        let before = remainders(source.drop_last(), flow, is_branch_flow);
        match remainder_of(source.last(), flow, is_branch_flow) {
            Ok(r) => set_insert(before, r),
            Err(_) => before,
        }
    }
}

/// The issues the source contexts raise, in order, at `path`.
pub open spec fn remainder_issues(source: Seq<ContextView>, flow: Seq<char>, is_branch_flow: bool, path: Seq<char>) -> Seq<IssueView>
    decreases source.len(),
{
    if source.len() == 0 {
        Seq::empty()
    } else {
        remainder_issues(source.drop_last(), flow, is_branch_flow, path) + match remainder_of(source.last(), flow, is_branch_flow) {
            Ok(_) => Seq::empty(),
            Err(message) => seq![(path, "FLOW_INVALID"@, message)],
        }
    }
}

/// The contexts one convergence input contributes: each context of its source, with the
/// input's fan-out flow closed when it is the innermost open flow. Reports inputs whose flow
/// is suspended or not active.
fn input_remainders(
    flow: &str,
    source_contexts: &Vec<ActivityContext>,
    is_branch_flow: bool,
    path: &String,
    issues: &mut Vec<IssueData>,
    nodes: Ghost<Seq<JsonData>>,
    index: Ghost<int>,
    from: Ghost<int>,
) -> (result: Vec<ActivityContext>)
    requires
        0 <= index@ < nodes@.len(),
        node_text(nodes@[index@], "type"@) == Some("converge"@),
        declares_input(nodes@[index@], flow@),
        is_branch_flow ==> branch_flow(nodes@, flow@),
        path@ == joined(node_path(index@) + "/inputs"@, flow@),
        activity_issues(nodes@, old(issues)@, from@),
        0 <= from@ <= old(issues).len(),
    ensures
        activity_issues(nodes@, final(issues)@, from@),
        final(issues)@.take(from@) == old(issues)@.take(from@),
        final(issues).len() >= old(issues).len(),
        contexts_view(result@) == remainders(contexts_view(source_contexts@), flow@, is_branch_flow),
        issue_views(final(issues)@) == issue_views(old(issues)@)
            + remainder_issues(contexts_view(source_contexts@), flow@, is_branch_flow, path@),
{
    let ghost sv = contexts_view(source_contexts@);
    let ghost start = issue_views(issues@);
    let mut kept: Vec<ActivityContext> = Vec::new();
    let mut c: usize = 0;
    assert(sv.take(0) =~= Seq::<ContextView>::empty());
    assert(start =~= start + Seq::<IssueView>::empty());
    while c < source_contexts.len()
        invariant
            c <= source_contexts.len(),
            sv == contexts_view(source_contexts@),
            contexts_view(kept@) == remainders(sv.take(c as int), flow@, is_branch_flow),
            issue_views(issues@) == start + remainder_issues(sv.take(c as int), flow@, is_branch_flow, path@),
            activity_issues(nodes@, issues@, from@),
            0 <= from@ <= old(issues).len() <= issues.len(),
            issues@.take(from@) == old(issues)@.take(from@),
            0 <= index@ < nodes@.len(),
            node_text(nodes@[index@], "type"@) == Some("converge"@),
            declares_input(nodes@[index@], flow@),
            is_branch_flow ==> branch_flow(nodes@, flow@),
            path@ == joined(node_path(index@) + "/inputs"@, flow@),
        decreases source_contexts.len() - c,
    {
        assert(sv.take(c + 1).drop_last() =~= sv.take(c as int));
        assert(sv.take(c + 1).last() == sv[c as int]);
        let ghost cv = sv[c as int];
        let ghost before_issues = issue_views(issues@);
        let mut remainder = source_contexts[c].copy();
        assert(context_view(remainder) == cv);
        let mut keep = true;
        if is_branch_flow {
            let count = remainder.flows.len();
            let ghost fv = context_view(remainder).0;
            assert(fv.len() == count);
            if count > 0 && text_eq(remainder.flows[count - 1].1.as_str(), flow) {
                assert(fv.last().1 == flow@);
                remainder = remainder.without_last_flow();
            } else {
                assert(count > 0 ==> fv.last().1 != flow@);
                let mut active = false;
                let mut q: usize = 0;
                while q < remainder.flows.len()
                    invariant
                        q <= remainder.flows.len(),
                        fv == context_view(remainder).0,
                        fv.len() == remainder.flows.len(),
                        active == exists|j: int| 0 <= j < q && (#[trigger] fv[j]).1 == flow@,
                    decreases remainder.flows.len() - q,
                {
                    assert(fv[q as int].1 == remainder.flows@[q as int].1@);
                    if text_eq(remainder.flows[q].1.as_str(), flow) {
                        active = true;
                    }
                    q = q + 1;
                }
                assert(active == flow_open(fv, flow@));
                let reported = path.clone();
                if count > 0 && active {
                    assert(activity_issue_at(nodes@, index@, (reported@, "FLOW_INVALID"@,
                        "suspended parent flow cannot be consumed before child recombination"@)));
                    push_activity_issue(issues, "FLOW_INVALID", reported,
                        "suspended parent flow cannot be consumed before child recombination", nodes, from);
                } else {
                    assert(activity_issue_at(nodes@, index@, (reported@, "FLOW_INVALID"@, "flow is not active at the declared source"@)));
                    push_activity_issue(issues, "FLOW_INVALID", reported, "flow is not active at the declared source", nodes, from);
                }
                keep = false;
            }
        }
        if keep {
            insert_unique(&mut kept, remainder);
        }
        assert(issue_views(issues@) =~= start + remainder_issues(sv.take(c + 1), flow@, is_branch_flow, path@));
        c = c + 1;
    }
    assert(sv.take(source_contexts.len() as int) =~= sv);
    kept
}

/// The combinations of `a` with each context of `right`, in order, added to `acc`.
pub open spec fn merge_row(acc: Seq<ContextView>, a: ContextView, right: Seq<ContextView>) -> Seq<ContextView>
    decreases right.len(),
{
    if right.len() == 0 {
        acc
    } else {
        let before = merge_row(acc, a, right.drop_last());
        match merge_cv(a, right.last()) {
            Some(m) => set_insert(before, m),
            None => before,
        }
    }
}

/// The combinations of each context of `left` with each of `right`, row by row, added to
/// `acc`.
pub open spec fn merge_sets(acc: Seq<ContextView>, left: Seq<ContextView>, right: Seq<ContextView>) -> Seq<ContextView>
    decreases left.len(),
{
    if left.len() == 0 {
        acc
    } else {
        merge_row(merge_sets(acc, left.drop_last(), right), left.last(), right)
    }
}

/// The distinct contexts, in order, with the choices of the gates in `retired` forgotten.
pub open spec fn settle(items: Seq<ContextView>, retired: Seq<usize>) -> Seq<ContextView>
    decreases items.len(),
{
    if items.len() == 0 {
        Seq::empty()
    } else {
        set_insert(settle(items.drop_last(), retired), retire_cv(items.last(), retired))
    }
}

/// Walking the inputs of convergence node `index` in order: the contexts compatible across
/// the inputs whose source names a node (none before the first such input), and the issues
/// their flows raise. `branch` holds the flow identifiers of fan-out branches.
pub open spec fn converge_inputs(
    sets: Seq<Seq<ContextView>>,
    nodes: Seq<JsonData>,
    inputs: Seq<(Seq<char>, JsonData)>,
    index: int,
    branch: Set<Seq<char>>,
) -> (Option<Seq<ContextView>>, Seq<IssueView>)
    decreases inputs.len(),
{
    if inputs.len() == 0 {
        (None, Seq::empty())
    } else {
        let before = converge_inputs(sets, nodes, inputs.drop_last(), index, branch);
        let flow = inputs.last().0;
        match crate::json_value::data_text(inputs.last().1) {
            Some(id) => match id_target(nodes, id) {
                Some(source) => {
                    let is_branch_flow = branch.contains(flow);
                    let rems = remainders(sets[source], flow, is_branch_flow);
                    (
                        Some(match before.0 {
                            None => rems,
                            Some(existing) => merge_sets(Seq::empty(), existing, rems),
                        }),
                        before.1 + remainder_issues(sets[source], flow, is_branch_flow, joined(node_path(index) + "/inputs"@, flow)),
                    )
                },
                None => before,
            },
            None => before,
        }
    }
}

/// The contexts compatible across all inputs of a convergence node (none without inputs).
pub open spec fn compatible_at(
    sets: Seq<Seq<ContextView>>,
    nodes: Seq<JsonData>,
    inputs: Seq<(Seq<char>, JsonData)>,
    index: int,
    branch: Set<Seq<char>>,
) -> Seq<ContextView> {
    match converge_inputs(sets, nodes, inputs, index, branch).0 {
        Some(c) => c,
        None => Seq::empty(),
    }
}

/// The contexts after convergence node `index` is processed: its own set becomes the
/// compatible contexts with the gates retired there forgotten, and these pass on to `next`.
pub open spec fn converged_sets(
    sets: Seq<Seq<ContextView>>,
    nodes: Seq<JsonData>,
    node: JsonData,
    index: int,
    branch: Set<Seq<char>>,
    retired: Seq<Seq<usize>>,
) -> Seq<Seq<ContextView>> {
    match node_field(node, "inputs"@) {
        Some(JsonData::Object(inputs)) => next_passed(
            sets.update(index, settle(compatible_at(sets, nodes, inputs, index, branch), retired[index])),
            nodes,
            node,
            index,
            retired,
        ),
        _ => sets,
    }
}

/// The issues processing convergence node `index` raises: those of its inputs' flows, then one
/// when no context is compatible across its inputs.
pub open spec fn convergence_issues(
    sets: Seq<Seq<ContextView>>,
    nodes: Seq<JsonData>,
    node: JsonData,
    index: int,
    branch: Set<Seq<char>>,
) -> Seq<IssueView> {
    match node_field(node, "inputs"@) {
        Some(JsonData::Object(inputs)) => converge_inputs(sets, nodes, inputs, index, branch).1 + if compatible_at(
            sets,
            nodes,
            inputs,
            index,
            branch,
        ).len() == 0 {
            seq![(node_path(index) + "/inputs"@, "CONVERGE_ACTIVITY"@, "declared convergence inputs cannot all be active together"@)]
        } else {
            Seq::empty()
        },
        _ => Seq::empty(),
    }
}

/// The contexts that can reach a convergence node with all its inputs active together;
/// reports the node when there are none and passes them on to its `next`.
fn process_converge(
    node: &JsonValue,
    index: usize,
    nodes: &Vec<JsonValue>,
    ids: &IdIndex,
    branch_flows: &StringHashMap<usize>,
    retired: &Vec<Vec<usize>>,
    contexts: &mut Vec<Vec<ActivityContext>>,
    issues: &mut Vec<IssueData>,
    from: Ghost<int>,
)
    requires
        ids.describes(array_data(*nodes)),
        index < old(contexts).len(),
        old(contexts).len() == nodes.len(),
        retired.len() == nodes.len(),
        node@ == array_data(*nodes)[index as int],
        node_text(node@, "type"@) == Some("converge"@),
        forall|key: Seq<char>| #[trigger] branch_flows@.contains_key(key) ==> branch_flow(array_data(*nodes), key),
        activity_issues(array_data(*nodes), old(issues)@, from@),
        0 <= from@ <= old(issues).len(),
    ensures
        final(contexts).len() == old(contexts).len(),
        activity_issues(array_data(*nodes), final(issues)@, from@),
        final(issues)@.take(from@) == old(issues)@.take(from@),
        final(issues).len() >= old(issues).len(),
        sets_view(final(contexts)@) == converged_sets(sets_view(old(contexts)@), array_data(*nodes), node@, index as int,
            branch_flows@.dom(), retired_view(retired@)),
        issue_views(final(issues)@) == issue_views(old(issues)@) + convergence_issues(sets_view(old(contexts)@),
            array_data(*nodes), node@, index as int, branch_flows@.dom()),
{
    let ghost sets0 = sets_view(contexts@);
    let ghost start = issue_views(issues@);
    let ghost branch = branch_flows@.dom();
    let ghost rv = retired_view(retired@);
    let inputs = match field_of(node, "inputs") {
        Some(v) => match v.object() {
            Some(m) => m,
            None => {
                assert(issue_views(issues@) =~= start + Seq::<IssueView>::empty());
                return;
            },
        },
        None => {
            assert(issue_views(issues@) =~= start + Seq::<IssueView>::empty());
            return;
        },
    };
    let ghost nd = array_data(*nodes);
    let ghost idata = object_data(*inputs);
    assert(node_field(node@, "inputs"@) == Some(JsonData::Object(object_data(*inputs))));
    let base = concat(node_path_string(index).as_str(), "/inputs");
    let mut compatible: Option<Vec<ActivityContext>> = None;
    let mut k: usize = 0;
    while k < inputs.len()
        invariant
            k <= inputs.len(),
            index < contexts.len(),
            contexts.len() == nodes.len(),
            retired.len() == nodes.len(),
            ids.describes(array_data(*nodes)),
            nd == array_data(*nodes),
            node@ == nd[index as int],
            node_text(node@, "type"@) == Some("converge"@),
            node_field(node@, "inputs"@) == Some(JsonData::Object(object_data(*inputs))),
            forall|key: Seq<char>| #[trigger] branch_flows@.contains_key(key) ==> branch_flow(nd, key),
            base@ == node_path(index as int) + "/inputs"@,
            activity_issues(nd, issues@, from@),
            0 <= from@ <= old(issues).len() <= issues.len(),
            issues@.take(from@) == old(issues)@.take(from@),
            contexts@ == old(contexts)@,
            sets0 == sets_view(old(contexts)@),
            branch == branch_flows@.dom(),
            idata == object_data(*inputs),
            (match compatible {
                Some(v) => Some(contexts_view(v@)),
                None => None,
            }) == converge_inputs(sets0, nd, idata.take(k as int), index as int, branch).0,
            issue_views(issues@) == start + converge_inputs(sets0, nd, idata.take(k as int), index as int, branch).1,
        decreases inputs.len() - k,
    {
        assert(idata.take(k + 1).drop_last() =~= idata.take(k as int));
        assert(idata.take(k + 1).last() == idata[k as int]);
        assert(idata[k as int] == (inputs[k as int].0@, inputs[k as int].1@));
        let ghost prior = converge_inputs(sets0, nd, idata.take(k as int), index as int, branch);
        let flow = inputs[k].0.as_str();
        let source_index = match inputs[k].1.string() {
            Some(id) => ids.lookup(id, Ghost(array_data(*nodes))),
            None => None,
        };
        if let Some(source) = source_index {
            let path = join_pointer(base.as_str(), flow);
            assert(object_data(*inputs)[k as int].0 == flow@);
            assert(declares_input(nd[index as int], flow@));
            let is_branch_flow = branch_flows.contains_key(flow);
            assert(contexts_view(contexts@[source as int]@) == sets0[source as int]);
            let remainders = input_remainders(flow, &contexts[source], is_branch_flow, &path, issues,
                Ghost(nd), Ghost(index as int), from);
            let ghost remv = contexts_view(remainders@);
            compatible = match compatible {
                None => Some(remainders),
                Some(existing) => {
                    let ghost ev = contexts_view(existing@);
                    let mut merged: Vec<ActivityContext> = Vec::new();
                    let mut a: usize = 0;
                    assert(ev.take(0) =~= Seq::<ContextView>::empty());
                    while a < existing.len()
                        invariant
                            a <= existing.len(),
                            ev == contexts_view(existing@),
                            remv == contexts_view(remainders@),
                            contexts_view(merged@) == merge_sets(Seq::empty(), ev.take(a as int), remv),
                        decreases existing.len() - a,
                    {
                        let ghost row_start = contexts_view(merged@);
                        let mut b: usize = 0;
                        assert(remv.take(0) =~= Seq::<ContextView>::empty());
                        while b < remainders.len()
                            invariant
                                b <= remainders.len(),
                                a < existing.len(),
                                ev == contexts_view(existing@),
                                remv == contexts_view(remainders@),
                                contexts_view(merged@) == merge_row(row_start, ev[a as int], remv.take(b as int)),
                            decreases remainders.len() - b,
                        {
                            assert(remv.take(b + 1).drop_last() =~= remv.take(b as int));
                            assert(remv.take(b + 1).last() == remv[b as int]);
                            assert(ev[a as int] == context_view(existing@[a as int]));
                            assert(remv[b as int] == context_view(remainders@[b as int]));
                            match merge_contexts(&existing[a], &remainders[b]) {
                                Some(m) => insert_unique(&mut merged, m),
                                None => {},
                            }
                            b = b + 1;
                        }
                        assert(remv.take(remainders.len() as int) =~= remv);
                        assert(ev.take(a + 1).drop_last() =~= ev.take(a as int));
                        assert(ev.take(a + 1).last() == ev[a as int]);
                        a = a + 1;
                    }
                    assert(ev.take(existing.len() as int) =~= ev);
                    Some(merged)
                },
            };
            assert(issue_views(issues@) =~= start + converge_inputs(sets0, nd, idata.take(k + 1), index as int, branch).1);
        }
        k = k + 1;
    }
    assert(idata.take(inputs.len() as int) =~= idata);
    let ghost found = converge_inputs(sets0, nd, idata, index as int, branch).1;
    let compatible = match compatible {
        Some(set) => set,
        None => Vec::new(),
    };
    let ghost cv = contexts_view(compatible@);
    assert(cv =~= compatible_at(sets0, nd, idata, index as int, branch));
    if compatible.len() == 0 {
        let reported = concat(node_path_string(index).as_str(), "/inputs");
        assert(activity_issue_at(nd, index as int, (reported@, "CONVERGE_ACTIVITY"@,
            "declared convergence inputs cannot all be active together"@)));
        push_activity_issue(issues, "CONVERGE_ACTIVITY", reported,
            "declared convergence inputs cannot all be active together", Ghost(nd), from);
    }
    assert(issue_views(issues@) =~= start + convergence_issues(sets0, nd, node@, index as int, branch));
    let mut settled: Vec<ActivityContext> = Vec::new();
    let mut c: usize = 0;
    assert(cv.take(0) =~= Seq::<ContextView>::empty());
    while c < compatible.len()
        invariant
            c <= compatible.len(),
            index < retired.len(),
            cv == contexts_view(compatible@),
            rv == retired_view(retired@),
            contexts_view(settled@) == settle(cv.take(c as int), rv[index as int]),
        decreases compatible.len() - c,
    {
        assert(cv.take(c + 1).drop_last() =~= cv.take(c as int));
        assert(cv.take(c + 1).last() == cv[c as int]);
        let mut context = compatible[c].copy();
        context.retire_gates(&retired[index]);
        insert_unique(&mut settled, context);
        c = c + 1;
    }
    assert(cv.take(compatible.len() as int) =~= cv);
    let ghost settled_view = contexts_view(settled@);
    contexts.set(index, settled);
    assert(sets_view(contexts@) =~= sets0.update(index as int, settled_view));
    propagate_next(node, index, nodes, ids, retired, contexts);
}

/// Two sequences that each take the smallest ready node first agree on a common prefix.
proof fn lemma_ready_prefix(g: Seq<Seq<usize>>, a: Seq<usize>, b: Seq<usize>, k: int)
    requires
        smallest_ready_first(g, a),
        smallest_ready_first(g, b),
        0 <= k <= a.len(),
        k <= b.len(),
    ensures
        a.take(k) == b.take(k),
    decreases k,
{
    if k > 0 {
        lemma_ready_prefix(g, a, b, k - 1);
        let p = a.take(k - 1);
        assert(ready_after(g, a.take(k - 1), a[k - 1] as int));
        assert(ready_after(g, b.take(k - 1), b[k - 1] as int));
        if a[k - 1] < b[k - 1] {
            assert(!ready_after(g, b.take(k - 1), a[k - 1] as int));
        }
        if b[k - 1] < a[k - 1] {
            assert(!ready_after(g, a.take(k - 1), b[k - 1] as int));
        }
        assert(a.take(k) =~= a.take(k - 1).push(a[k - 1]));
        assert(b.take(k) =~= b.take(k - 1).push(b[k - 1]));
    }
}

/// Taking the smallest ready node first determines the whole sequence.
proof fn lemma_ready_unique(g: Seq<Seq<usize>>, a: Seq<usize>, b: Seq<usize>)
    requires
        smallest_ready_first(g, a),
        smallest_ready_first(g, b),
    ensures
        a == b,
{
    if a.len() < b.len() {
        lemma_ready_prefix(g, a, b, a.len() as int);
        assert(a.take(a.len() as int) =~= a);
        assert(ready_after(g, b.take(a.len() as int), b[a.len() as int] as int));
    } else if b.len() < a.len() {
        lemma_ready_prefix(g, a, b, b.len() as int);
        assert(b.take(b.len() as int) =~= b);
        assert(ready_after(g, a.take(b.len() as int), a[b.len() as int] as int));
    } else {
        lemma_ready_prefix(g, a, b, a.len() as int);
        assert(a.take(a.len() as int) =~= a);
        assert(b.take(b.len() as int) =~= b);
    }
}

/// The nodes in the order the activity analysis visits them: each time the smallest node all of
/// whose predecessors have been visited.
pub open spec fn topological_order(g: Seq<Seq<usize>>) -> Seq<usize> {
    choose|t: Seq<usize>| smallest_ready_first(g, t)
}

/// The flow identifiers of fan-out branches.
pub open spec fn branch_ids(nodes: Seq<JsonData>) -> Set<Seq<char>> {
    Set::new(|flow: Seq<char>| branch_flow(nodes, flow))
}

/// Before any fan-out or gate: one empty context at the entry, none elsewhere.
pub open spec fn initial_sets(n: int, entry: int) -> Seq<Seq<ContextView>> {
    Seq::new(n as nat, |v: int| if v == entry {
        seq![(Seq::<(usize, Seq<char>)>::empty(), Seq::<(usize, usize)>::empty())]
    } else {
        Seq::empty()
    })
}

/// The contexts hold more than one stack of flows.
pub open spec fn several_shapes(set: Seq<ContextView>) -> bool {
    exists|j: int| 0 < j < set.len() && (#[trigger] set[j]).0 != set[0].0
}

/// Processing node `index`: an implicit-join issue when an ordinary node holds contexts with
/// different flows, then what its type does with its contexts.
pub open spec fn node_step(
    sets: Seq<Seq<ContextView>>,
    nodes: Seq<JsonData>,
    index: int,
    branch: Set<Seq<char>>,
    retired: Seq<Seq<usize>>,
) -> (Seq<Seq<ContextView>>, Seq<IssueView>) {
    let node = nodes[index];
    if !(node is Object) {
        (sets, Seq::empty())
    } else {
        let kind = node_text(node, "type"@);
        let joins = kind == Some("converge"@) || kind == Some("raise-error"@) || kind == Some("fan-out"@);
        let joined = if !joins && several_shapes(sets[index]) {
            seq![(id_path(index), "GRAPH_IMPLICIT_JOIN"@, "ordinary node may receive simultaneously active values"@)]
        } else {
            Seq::empty()
        };
        if kind == Some("fan-out"@) {
            (match node_field(node, "branches"@) {
                Some(JsonData::Array(branches)) => fan_passed(sets, nodes, branches, index, retired),
                _ => sets,
            }, joined)
        } else if kind == Some("converge"@) {
            (converged_sets(sets, nodes, node, index, branch, retired), joined + convergence_issues(sets, nodes, node, index, branch))
        } else if kind == Some("task"@) || kind == Some("map-schema"@) {
            (next_passed(sets, nodes, node, index, retired), joined)
        } else if kind == Some("deterministic-gate"@) || kind == Some("randomised-gate"@) {
            let list = if kind == Some("deterministic-gate"@) { "cases"@ } else { "routes"@ };
            (match node_field(node, list) {
                Some(JsonData::Array(entries)) => gate_passed(sets, nodes, entries, index, sets[index], retired),
                _ => sets,
            }, joined)
        } else {
            (sets, joined)
        }
    }
}

/// Visiting the nodes of `visit` in turn: the contexts at every node, the issues reported, and
/// the largest number of contexts a visited node held (at least 1).
pub open spec fn activity_run(
    sets: Seq<Seq<ContextView>>,
    nodes: Seq<JsonData>,
    visit: Seq<usize>,
    branch: Set<Seq<char>>,
    retired: Seq<Seq<usize>>,
) -> (Seq<Seq<ContextView>>, Seq<IssueView>, int)
    decreases visit.len(),
{
    if visit.len() == 0 {
        (sets, Seq::empty(), 1)
    } else {
        let before = activity_run(sets, nodes, visit.drop_last(), branch, retired);
        let index = visit.last() as int;
        let held = before.0[index].len() as int;
        let step = node_step(before.0, nodes, index, branch, retired);
        (step.0, before.1 + step.1, if held > before.2 { held } else { before.2 })
    }
}

/// Follows the flows and gate choices that can be active together through the graph, in
/// topological order, and reports ordinary nodes that may receive simultaneously active
/// values, flows consumed where they are not active, and convergence nodes whose inputs
/// cannot all be active together. Returns the largest number of contexts any node held.
pub fn validate_activity(
    nodes: &Vec<JsonValue>,
    edges: &Vec<Vec<usize>>,
    ids: &IdIndex,
    entry: usize,
    issues: &mut Vec<IssueData>,
) -> (max_contexts: usize)
    requires
        graph_wf(adjacency(*edges)),
        nodes.len() == edges.len(),
        entry < nodes.len(),
        ids.describes(array_data(*nodes)),
    ensures
        max_contexts >= 1,
        final(issues).len() >= old(issues).len(),
        final(issues)@.take(old(issues).len() as int) == old(issues)@,
        activity_issues(array_data(*nodes), final(issues)@, old(issues).len() as int),
        max_contexts as int == activity_run(initial_sets(nodes.len() as int, entry as int), array_data(*nodes),
            topological_order(adjacency(*edges)), branch_ids(array_data(*nodes)),
            retirements(array_data(*nodes), adjacency(*edges))).2,
        issue_views(final(issues)@) == issue_views(old(issues)@) + activity_run(initial_sets(nodes.len() as int, entry as int),
            array_data(*nodes), topological_order(adjacency(*edges)), branch_ids(array_data(*nodes)),
            retirements(array_data(*nodes), adjacency(*edges))).1,
{
    let ghost from = old(issues).len() as int;
    let ghost nd = array_data(*nodes);
    let ghost g = adjacency(*edges);
    let ghost start = issue_views(issues@);
    let n = nodes.len();
    let mut branch_flows: StringHashMap<usize> = StringHashMap::new();
    let mut f: usize = 0;
    while f < n
        invariant
            f <= n,
            n == nodes.len(),
            nd == array_data(*nodes),
            forall|key: Seq<char>| #[trigger] branch_flows@.contains_key(key) ==> branch_flow(nd, key),
            forall|key: Seq<char>, e: int| 0 <= e < f && #[trigger] branch_declares(nd[e], key) ==> branch_flows@.contains_key(key),
        decreases n - f,
    {
        assert(nd[f as int] == nodes[f as int]@);
        let is_fan_out = match text_of(&nodes[f], "type") {
            Some(t) => text_eq(t, "fan-out"),
            None => false,
        };
        if is_fan_out {
            match field_of(&nodes[f], "branches") {
                Some(v) => match v.array() {
                    Some(branches) => {
                        assert(nd[f as int] == nodes[f as int]@);
                        assert(node_field(nd[f as int], "branches"@) == Some(JsonData::Array(array_data(*branches))));
                        let mut k: usize = 0;
                        while k < branches.len()
                            invariant
                                k <= branches.len(),
                                f < n,
                                n == nodes.len(),
                                nd == array_data(*nodes),
                                node_text(nd[f as int], "type"@) == Some("fan-out"@),
                                node_field(nd[f as int], "branches"@) == Some(JsonData::Array(array_data(*branches))),
                                forall|key: Seq<char>| #[trigger] branch_flows@.contains_key(key) ==> branch_flow(nd, key),
                                forall|key: Seq<char>, e: int| 0 <= e < f && #[trigger] branch_declares(nd[e], key) ==> branch_flows@.contains_key(key),
                                forall|b: int| 0 <= b < k && #[trigger] node_text(array_data(*branches)[b], "id"@) is Some
                                    ==> branch_flows@.contains_key(node_text(array_data(*branches)[b], "id"@)->0),
                            decreases branches.len() - k,
                        {
                            assert(array_data(*branches)[k as int] == branches[k as int]@);
                            match text_of(&branches[k], "id") {
                                Some(flow) => {
                                    proof {
                                        assert(array_data(*branches)[k as int] == branches[k as int]@);
                                        assert(branch_declares(nd[f as int], flow@));
                                        assert(branch_flow(nd, flow@));
                                    }
                                    branch_flows.insert(owned(flow), f);
                                },
                                None => {},
                            }
                            k = k + 1;
                        }
                        proof {
                            assert forall|key: Seq<char>| #[trigger] branch_declares(nd[f as int], key) implies branch_flows@.contains_key(key) by {
                                let bd = array_data(*branches);
                                let b = choose|b: int| 0 <= b < bd.len() && node_text(#[trigger] bd[b], "id"@) == Some(key);
                            }
                        }
                    },
                    None => {},
                },
                None => {},
            }
        }
        proof {
            assert forall|key: Seq<char>, e: int| 0 <= e < f + 1 && #[trigger] branch_declares(nd[e], key) implies branch_flows@.contains_key(key) by {
                if e == f && !is_fan_out {
                    assert(node_text(nd[e], "type"@) != Some("fan-out"@));
                }
            }
        }
        f = f + 1;
    }
    proof {
        assert(branch_flows@.dom() =~= branch_ids(nd)) by {
            assert forall|key: Seq<char>| branch_flow(nd, key) implies branch_flows@.contains_key(key) by {
                let e = choose|e: int| 0 <= e < nd.len() && #[trigger] branch_declares(nd[e], key);
            }
        }
    }
    let ghost branch = branch_flows@.dom();
    let sequence = topological_sequence(edges);
    proof {
        lemma_ready_unique(g, sequence@, topological_order(g));
    }
    let retired = gate_retirements(nodes, edges, ids);
    let ghost rv = retired_view(retired@);
    let mut contexts: Vec<Vec<ActivityContext>> = Vec::new();
    let mut i: usize = 0;
    while i < n
        invariant
            i <= n,
            contexts.len() == i,
            forall|v: int| 0 <= v < i ==> (#[trigger] contexts@[v])@ == Seq::<ActivityContext>::empty(),
        decreases n - i,
    {
        contexts.push(Vec::new());
        i = i + 1;
    }
    let mut start_set: Vec<ActivityContext> = Vec::new();
    start_set.push(ActivityContext::initial());
    contexts.set(entry, start_set);
    proof {
        assert(sets_view(contexts@) =~= initial_sets(n as int, entry as int)) by {
            assert forall|v: int| 0 <= v < n implies #[trigger] sets_view(contexts@)[v] == initial_sets(n as int, entry as int)[v] by {
                if v == entry {
                    assert(contexts_view(contexts@[v]@) =~= seq![(Seq::<(usize, Seq<char>)>::empty(), Seq::<(usize, usize)>::empty())]);
                } else {
                    assert(contexts_view(contexts@[v]@) =~= Seq::<ContextView>::empty());
                }
            }
        }
    }
    let ghost init = initial_sets(n as int, entry as int);
    let mut max_contexts: usize = 1;
    proof {
        assert(issues@.take(from) =~= issues@);
        assert(sequence@.take(0) =~= Seq::<usize>::empty());
        assert(issue_views(issues@) =~= start + Seq::<IssueView>::empty());
    }
    let mut s: usize = 0;
    while s < sequence.len()
        invariant
            s <= sequence.len(),
            init == initial_sets(n as int, entry as int),
            branch == branch_flows@.dom(),
            rv == retired_view(retired@),
            sets_view(contexts@) == activity_run(init, nd, sequence@.take(s as int), branch, rv).0,
            issue_views(issues@) == start + activity_run(init, nd, sequence@.take(s as int), branch, rv).1,
            max_contexts as int == activity_run(init, nd, sequence@.take(s as int), branch, rv).2,
            n == nodes.len(),
            n == edges.len(),
            forall|q: int| 0 <= q < sequence.len() ==> #[trigger] sequence@[q] < n,
            contexts.len() == n,
            retired.len() == n,
            max_contexts >= 1,
            ids.describes(array_data(*nodes)),
            nd == array_data(*nodes),
            forall|key: Seq<char>| #[trigger] branch_flows@.contains_key(key) ==> branch_flow(nd, key),
            from == old(issues).len(),
            0 <= from <= issues.len(),
            activity_issues(nd, issues@, from),
            issues@.take(from) == old(issues)@,
        decreases sequence.len() - s,
    {
        let index = sequence[s];
        let ghost prior = activity_run(init, nd, sequence@.take(s as int), branch, rv);
        proof {
            assert(sequence@.take(s + 1).drop_last() =~= sequence@.take(s as int));
            assert(sequence@.take(s + 1).last() == index);
            assert(contexts_view(contexts@[index as int]@) == prior.0[index as int]);
        }
        if contexts[index].len() > max_contexts {
            max_contexts = contexts[index].len();
        }
        let ghost step = node_step(prior.0, nd, index as int, branch, rv);
        let ghost issues_before = issue_views(issues@);
        let node = &nodes[index];
        assert(nd[index as int] == nodes[index as int]@);
        if node.object().is_some() {
            let typed = text_of(node, "type");
            let kind = match typed {
                Some(t) => t,
                None => "",
            };
            let joins = typed.is_some() && (text_eq(kind, "converge") || text_eq(kind, "raise-error") || text_eq(kind, "fan-out"));
            let several = several_flow_shapes(&contexts[index]);
            assert(several == several_shapes(prior.0[index as int]));
            if !joins && several {
                let reported = concat(node_path_string(index).as_str(), "/id");
                assert(nd[index as int] == nodes[index as int]@);
                assert(activity_issue_at(nd, index as int, (reported@, "GRAPH_IMPLICIT_JOIN"@,
                    "ordinary node may receive simultaneously active values"@)));
                push_activity_issue(issues, "GRAPH_IMPLICIT_JOIN", reported,
                    "ordinary node may receive simultaneously active values", Ghost(nd), Ghost(from));
            }
            if typed.is_some() && text_eq(kind, "fan-out") {
                propagate_fan_out(node, index, nodes, ids, &retired, &mut contexts);
            } else if typed.is_some() && text_eq(kind, "converge") {
                process_converge(node, index, nodes, ids, &branch_flows, &retired, &mut contexts, issues, Ghost(from));
            } else if typed.is_some() && (text_eq(kind, "task") || text_eq(kind, "map-schema")) {
                propagate_next(node, index, nodes, ids, &retired, &mut contexts);
            } else if typed.is_some() && text_eq(kind, "deterministic-gate") {
                propagate_gate(node, index, "cases", nodes, ids, &retired, &mut contexts);
            } else if typed.is_some() && text_eq(kind, "randomised-gate") {
                propagate_gate(node, index, "routes", nodes, ids, &retired, &mut contexts);
            }
        }
        proof {
            assert(sets_view(contexts@) == step.0);
            assert(issue_views(issues@) =~= start + (prior.1 + step.1));
        }
        s = s + 1;
    }
    proof {
        assert(sequence@.take(sequence.len() as int) =~= sequence@);
        assert(retired_view(retired@) == retirements(nd, g));
    }
    max_contexts
}

} // verus!
