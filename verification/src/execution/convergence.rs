//! Convergence points: the values that have arrived, and the joined value once every input
//! has arrived.
use vstd::prelude::*;
use std::collections::HashMap;

use super::mapping::set_member;
use crate::graph::model::ConvergeInput;
use crate::json_value::{object_data, JsonData, JsonValue};
use crate::text::{owned, text_eq};

verus! {

broadcast use vstd::std_specs::hash::group_hash_axioms;

/// A value that arrived at a convergence point, with the flows still open on it.
pub struct Arrival {
    pub value: JsonValue,
    pub flows: Vec<String>,
}

/// A joined value, with the flows open on every input.
pub struct Converged {
    pub value: JsonValue,
    pub flows: Vec<String>,
}

/// Texts as data.
pub open spec fn texts(v: Seq<String>) -> Seq<Seq<char>> {
    v.map_values(|s: String| s@)
}

/// An arrival as data.
pub open spec fn arrival_view(a: Option<Arrival>) -> Option<(JsonData, Seq<Seq<char>>)> {
    match a {
        Some(x) => Some((x.value@, texts(x.flows@))),
        None => None,
    }
}

/// The arrivals at one node as data.
pub open spec fn arrivals_view(v: Seq<Option<Arrival>>) -> Seq<Option<(JsonData, Seq<Seq<char>>)>> {
    v.map_values(|a: Option<Arrival>| arrival_view(a))
}

/// The longest common prefix of two flow stacks.
pub open spec fn common_prefix_len(left: Seq<Seq<char>>, right: Seq<Seq<char>>) -> nat
    decreases left.len(),
{
    if left.len() == 0 || right.len() == 0 || left[0] != right[0] {
        0
    } else {
        1 + common_prefix_len(left.drop_first(), right.drop_first())
    }
}

/// The first input that comes from `source`.
pub open spec fn input_from(inputs: Seq<ConvergeInput>, source: usize, from: int) -> Option<int>
    decreases inputs.len() - from,
{
    if from < 0 || from >= inputs.len() {
        None
    } else if inputs[from].source == source {
        Some(from)
    } else {
        input_from(inputs, source, from + 1)
    }
}

/// The flow stack without the last occurrence of `flow`.
pub open spec fn without_last(flows: Seq<Seq<char>>, flow: Seq<char>) -> Seq<Seq<char>>
    decreases flows.len(),
{
    if flows.len() == 0 {
        flows
    } else if flows.last() == flow {
        flows.drop_last()
    } else {
        without_last(flows.drop_last(), flow).push(flows.last())
    }
}

/// The longest common prefix of two flow stacks.
pub fn common_prefix(left: Vec<String>, right: &Vec<String>) -> (result: Vec<String>)
    ensures
        texts(result@) == texts(left@).take(common_prefix_len(texts(left@), texts(right@)) as int),
{
    let ghost l = texts(left@);
    let ghost r = texts(right@);
    let mut length: usize = 0;
    assert(l.skip(0) =~= l && r.skip(0) =~= r);
    while length < left.len() && length < right.len() && text_eq(left[length].as_str(), right[length].as_str())
        invariant
            length <= left.len(),
            length <= right.len(),
            l == texts(left@),
            r == texts(right@),
            common_prefix_len(l, r) == length + common_prefix_len(l.skip(length as int), r.skip(length as int)),
        decreases left.len() - length,
    {
        assert(l.skip(length as int).drop_first() =~= l.skip(length + 1));
        assert(r.skip(length as int).drop_first() =~= r.skip(length + 1));
        assert(l.skip(length as int)[0] == l[length as int]);
        assert(r.skip(length as int)[0] == r[length as int]);
        length = length + 1;
    }
    proof {
        if length < left.len() && length < right.len() {
            assert(l.skip(length as int)[0] == l[length as int]);
            assert(r.skip(length as int)[0] == r[length as int]);
        }
    }
    let mut out = left;
    out.truncate(length);
    assert(texts(out@) =~= l.take(length as int));
    out
}

/// The arrivals after one more: the input's slot filled with the value and its flows, the
/// input's own flow closed.
pub open spec fn arrivals_after(
    before: Option<Seq<Option<(JsonData, Seq<Seq<char>>)>>>,
    inputs: Seq<ConvergeInput>,
    index: int,
    value: JsonData,
    flows: Seq<Seq<char>>,
) -> Seq<Option<(JsonData, Seq<Seq<char>>)>> {
    let slots = match before {
        Some(s) => s,
        None => Seq::new(inputs.len(), |k: int| None),
    };
    slots.update(index, Some((value, without_last(flows, inputs[index].flow_id@))))
}

/// The value of an arrival.
pub open spec fn arrived_value(a: Option<(JsonData, Seq<Seq<char>>)>) -> JsonData {
    match a {
        Some((v, _)) => v,
        None => JsonData::Null,
    }
}

/// The open flows of an arrival.
pub open spec fn arrived_flows(a: Option<(JsonData, Seq<Seq<char>>)>) -> Seq<Seq<char>> {
    match a {
        Some((_, f)) => f,
        None => Seq::empty(),
    }
}

/// Every input has arrived.
pub open spec fn all_arrived(slots: Seq<Option<(JsonData, Seq<Seq<char>>)>>) -> bool {
    forall|k: int| 0 <= k < slots.len() ==> (#[trigger] slots[k]) is Some
}

/// The joined value: each input's value under its flow identifier.
pub open spec fn joined_members(inputs: Seq<ConvergeInput>, slots: Seq<Option<(JsonData, Seq<Seq<char>>)>>) -> Seq<(Seq<char>, JsonData)>
    decreases inputs.len(),
{
    if inputs.len() == 0 {
        Seq::empty()
    } else {
        set_member(
            joined_members(inputs.drop_last(), slots),
            inputs.last().flow_id@,
            arrived_value(slots[inputs.len() - 1]),
        )
    }
}

/// The flows open on every input.
pub open spec fn joined_flows(slots: Seq<Option<(JsonData, Seq<Seq<char>>)>>) -> Seq<Seq<char>>
    decreases slots.len(),
{
    if slots.len() == 0 {
        Seq::empty()
    } else if slots.len() == 1 {
        arrived_flows(slots[0])
    } else {
        let rest = joined_flows(slots.drop_last());
        rest.take(common_prefix_len(rest, arrived_flows(slots.last())) as int)
    }
}

/// The arrivals waiting at each convergence node.
pub struct Convergences {
    by_node: HashMap<usize, Vec<Option<Arrival>>>,
}

impl Convergences {
    /// The arrivals as data, by node.
    pub closed spec fn arrivals(&self) -> Map<usize, Seq<Option<(JsonData, Seq<Seq<char>>)>>> {
        self.by_node@.map_values(|v: Vec<Option<Arrival>>| arrivals_view(v@))
    }

    /// Nothing has arrived.
    pub fn new() -> (result: Self)
        ensures
            result.arrivals() == Map::<usize, Seq<Option<(JsonData, Seq<Seq<char>>)>>>::empty(),
    {
        let result = Convergences { by_node: HashMap::new() };
        assert(result.arrivals() =~= Map::<usize, Seq<Option<(JsonData, Seq<Seq<char>>)>>>::empty());
        result
    }

    /// Records a value arriving at `node` from `source`; returns the joined value and flows
    /// once every input has arrived, and then forgets the node's arrivals.
    pub fn arrive(&mut self, node: usize, source: usize, value: JsonValue, flows: Vec<String>, inputs: &Vec<ConvergeInput>) -> (result: Option<Converged>)
        requires
            input_from(inputs@, source, 0) is Some,
            old(self).arrivals().contains_key(node) ==> old(self).arrivals()[node].len() == inputs.len(),
        ensures
            ({
                let slots = arrivals_after(
                    if old(self).arrivals().contains_key(node) { Some(old(self).arrivals()[node]) } else { None },
                    inputs@,
                    input_from(inputs@, source, 0)->0,
                    value@,
                    texts(flows@),
                );
                if all_arrived(slots) {
                    &&& result is Some
                    &&& result->0.value@ == JsonData::Object(joined_members(inputs@, slots))
                    &&& texts(result->0.flows@) == joined_flows(slots)
                    &&& final(self).arrivals() == old(self).arrivals().remove(node)
                } else {
                    &&& result is None
                    &&& final(self).arrivals() == old(self).arrivals().insert(node, slots)
                }
            }),
    {
        let ghost before = self.arrivals();
        let ghost old_slots = if before.contains_key(node) { Some(before[node]) } else { None };
        let index = first_input_from(inputs, source);
        let ghost raw_flows = texts(flows@);
        let mut flows = flows;
        remove_last(&mut flows, inputs[index].flow_id.as_str());
        let ghost map_before = self.by_node@;
        let mut slots: Vec<Option<Arrival>> = match self.by_node.remove(&node) {
            Some(existing) => {
                assert(map_before.contains_key(node) && existing == map_before[node]);
                assert(before[node] == arrivals_view(existing@));
                existing
            },
            None => {
                let mut fresh: Vec<Option<Arrival>> = Vec::new();
                let mut k: usize = 0;
                while k < inputs.len()
                    invariant
                        k <= inputs.len(),
                        fresh.len() == k,
                        forall|q: int| 0 <= q < k ==> fresh@[q] is None,
                    decreases inputs.len() - k,
                {
                    fresh.push(None);
                    k = k + 1;
                }
                assert(arrivals_view(fresh@) =~= Seq::new(inputs.len() as nat, |k: int| None));
                fresh
            },
        };
        let ghost target = arrivals_after(old_slots, inputs@, index as int, value@, raw_flows);
        assert(arrivals_view(slots@).len() == inputs.len());
        slots.set(index, Some(Arrival { value, flows }));
        assert(arrivals_view(slots@) =~= target);
        let mut complete = true;
        let mut k: usize = 0;
        while k < slots.len()
            invariant
                k <= slots.len(),
                complete <==> forall|q: int| 0 <= q < k ==> (#[trigger] slots@[q]) is Some,
            decreases slots.len() - k,
        {
            if slots[k].is_none() {
                complete = false;
            }
            k = k + 1;
        }
        assert(complete <==> all_arrived(target)) by {
            if complete {
                assert forall|q: int| 0 <= q < target.len() implies (#[trigger] target[q]) is Some by {
                    assert(target[q] == arrival_view(slots@[q]));
                }
            }
            if all_arrived(target) {
                assert forall|q: int| 0 <= q < slots.len() implies (#[trigger] slots@[q]) is Some by {
                    assert(target[q] == arrival_view(slots@[q]));
                }
            }
        }
        if !complete {
            self.by_node.insert(node, slots);
            assert(self.arrivals() =~= before.insert(node, target));
            return None;
        }
        assert(self.arrivals() =~= before.remove(node));
        Some(join_arrivals(slots, inputs, Ghost(target)))
    }
}

/// The first input that comes from `source`.
fn first_input_from(inputs: &Vec<ConvergeInput>, source: usize) -> (result: usize)
    requires
        input_from(inputs@, source, 0) is Some,
    ensures
        input_from(inputs@, source, 0) == Some(result as int),
        result < inputs.len(),
{
    let mut k: usize = 0;
    while k < inputs.len()
        invariant
            k <= inputs.len(),
            input_from(inputs@, source, 0) == input_from(inputs@, source, k as int),
            input_from(inputs@, source, 0) is Some,
        decreases inputs.len() - k,
    {
        if inputs[k].source == source {
            return k;
        }
        k = k + 1;
    }
    k
}

/// Removes the last occurrence of a flow.
fn remove_last(flows: &mut Vec<String>, flow: &str)
    ensures
        texts(final(flows)@) == without_last(texts(old(flows)@), flow@),
{
    let ghost all = texts(flows@);
    let mut k: usize = flows.len();
    while k > 0
        invariant
            k <= flows.len(),
            flows@ == old(flows)@,
            all == texts(flows@),
            forall|q: int| k <= q < flows.len() ==> (#[trigger] flows@[q])@ != flow@,
        decreases k,
    {
        if text_eq(flows[k - 1].as_str(), flow) {
            let ghost before = flows@;
            flows.remove(k - 1);
            proof {
                lemma_without_last_at(all, flow@, k - 1);
                assert(texts(flows@) =~= all.take(k - 1) + all.skip(k as int));
            }
            return;
        }
        k = k - 1;
    }
    proof {
        lemma_without_last_absent(all, flow@);
    }
}

proof fn lemma_without_last_absent(flows: Seq<Seq<char>>, flow: Seq<char>)
    requires
        forall|q: int| 0 <= q < flows.len() ==> #[trigger] flows[q] != flow,
    ensures
        without_last(flows, flow) == flows,
    decreases flows.len(),
{
    if flows.len() > 0 {
        lemma_without_last_absent(flows.drop_last(), flow);
        assert(flows.drop_last().push(flows.last()) =~= flows);
    }
}

proof fn lemma_without_last_at(flows: Seq<Seq<char>>, flow: Seq<char>, k: int)
    requires
        0 <= k < flows.len(),
        flows[k] == flow,
        forall|q: int| k < q < flows.len() ==> #[trigger] flows[q] != flow,
    ensures
        without_last(flows, flow) == flows.take(k) + flows.skip(k + 1),
    decreases flows.len(),
{
    if k == flows.len() - 1 {
        assert(flows.drop_last() =~= flows.take(k) + flows.skip(k + 1));
    } else {
        lemma_without_last_at(flows.drop_last(), flow, k);
        assert((flows.drop_last().take(k) + flows.drop_last().skip(k + 1)).push(flows.last()) =~= flows.take(k) + flows.skip(k + 1));
    }
}

/// Joins the arrivals: each value under its input's flow identifier, and the common flows.
fn join_arrivals(slots: Vec<Option<Arrival>>, inputs: &Vec<ConvergeInput>, target: Ghost<Seq<Option<(JsonData, Seq<Seq<char>>)>>>) -> (result: Converged)
    requires
        arrivals_view(slots@) == target@,
        slots.len() == inputs.len(),
        all_arrived(target@),
    ensures
        result.value@ == JsonData::Object(joined_members(inputs@, target@)),
        texts(result.flows@) == joined_flows(target@),
{
    let mut values: Vec<(String, JsonValue)> = Vec::new();
    let mut common: Option<Vec<String>> = None;
    let mut slots = slots;
    let ghost t = target@;
    let mut k: usize = 0;
    assert(object_data(values) =~= joined_members(inputs@.take(0), t));
    while k < inputs.len()
        invariant
            k <= inputs.len(),
            slots.len() == inputs.len(),
            t == target@,
            t.len() == inputs.len(),
            all_arrived(t),
            forall|q: int| k <= q < slots.len() ==> arrival_view(#[trigger] slots@[q]) == t[q],
            object_data(values) == joined_members(inputs@.take(k as int), t),
            k == 0 <==> common is None,
            common is Some ==> texts(common->0@) == joined_flows(t.take(k as int)),
        decreases inputs.len() - k,
    {
        assert(t[k as int] is Some);
        let mut taken: Option<Arrival> = None;
        std::mem::swap(&mut taken, &mut slots[k]);
        assert(arrival_view(taken) == t[k as int]);
        let arrival = match taken {
            Some(a) => a,
            None => {
                assert(false);
                Arrival { value: JsonValue::Null, flows: Vec::new() }
            },
        };
        assert(inputs@.take(k + 1).drop_last() =~= inputs@.take(k as int));
        super::mapping::set_member_exec_pub(&mut values, inputs[k].flow_id.as_str(), arrival.value);
        assert(t.take(k + 1).drop_last() =~= t.take(k as int));
        common = match common {
            None => {
                assert(t.take(1)[0] == t[0]);
                Some(arrival.flows)
            },
            Some(existing) => Some(common_prefix(existing, &arrival.flows)),
        };
        k = k + 1;
    }
    assert(inputs@.take(inputs.len() as int) =~= inputs@);
    assert(t.take(inputs.len() as int) =~= t);
    let flows = match common {
        Some(c) => c,
        None => {
            assert(t.len() == 0);
            Vec::new()
        },
    };
    Converged { value: JsonValue::Object(values), flows }
}

/// Every arrived value is well formed.
pub open spec fn slots_wf(slots: Seq<Option<(JsonData, Seq<Seq<char>>)>>) -> bool {
    forall|k: int| 0 <= k < slots.len() ==> crate::json_value::data_wf(arrived_value(#[trigger] slots[k]))
}

/// Joining well-formed values gives well-formed members.
pub proof fn lemma_joined_wf(inputs: Seq<ConvergeInput>, slots: Seq<Option<(JsonData, Seq<Seq<char>>)>>)
    requires
        slots_wf(slots),
        inputs.len() <= slots.len(),
    ensures
        super::mapping::members_wf(joined_members(inputs, slots)),
    decreases inputs.len(),
{
    if inputs.len() > 0 {
        lemma_joined_wf(inputs.drop_last(), slots);
        assert(crate::json_value::data_wf(arrived_value(slots[inputs.len() - 1])));
        super::mapping::lemma_set_member_wf(
            joined_members(inputs.drop_last(), slots),
            inputs.last().flow_id@,
            arrived_value(slots[inputs.len() - 1]),
        );
    }
}

} // verus!
