//! Building the output of a map-schema node.
use vstd::prelude::*;

use super::error::MappingFailure;
use crate::graph::model::{Mapping, ValueType};
use crate::graph::numbers::{type_matches, value_type_name};
use crate::json_parsing::pointer::{JsonPointer, PointerToken};
use crate::json_value::{data_wf, member, object_data, pointer_path, resolve, JsonData, JsonValue};
use crate::text::{owned, text_eq};

verus! {

/// The value a mapping takes: the value at its source, or else its default.
pub open spec fn mapping_value(input: JsonData, m: Mapping) -> Option<JsonData> {
    let found = match m.source {
        Some(p) => resolve(input, pointer_path(p)),
        None => None,
    };
    match found {
        Some(v) => Some(v),
        None => match m.default {
            Some(d) => Some(d@),
            None => None,
        },
    }
}

/// The position of the first member with the key.
pub open spec fn key_position(ms: Seq<(Seq<char>, JsonData)>, key: Seq<char>) -> Option<int>
    decreases ms.len(),
{
    if ms.len() == 0 {
        None
    } else if ms[0].0 == key {
        Some(0)
    } else {
        match key_position(ms.drop_first(), key) {
            Some(i) => Some(i + 1),
            None => None,
        }
    }
}

/// Sets a member: replaced in place when the key is there, else appended.
pub open spec fn set_member(ms: Seq<(Seq<char>, JsonData)>, key: Seq<char>, value: JsonData) -> Seq<(Seq<char>, JsonData)> {
    match key_position(ms, key) {
        Some(i) => ms.update(i, (key, value)),
        None => ms.push((key, value)),
    }
}

/// Writes a value at a path of keys, entering the objects along the way and creating those
/// that are missing.
pub open spec fn insert_at(ms: Seq<(Seq<char>, JsonData)>, keys: Seq<Seq<char>>, value: JsonData) -> Seq<(Seq<char>, JsonData)>
    decreases keys.len(),
{
    if keys.len() == 0 {
        ms
    } else if keys.len() == 1 {
        set_member(ms, keys[0], value)
    } else {
        let child = match key_position(ms, keys[0]) {
            Some(i) => match ms[i].1 {
                JsonData::Object(c) => c,
                _ => Seq::empty(),
            },
            None => Seq::empty(),
        };
        set_member(ms, keys[0], JsonData::Object(insert_at(child, keys.drop_first(), value)))
    }
}

/// Applies the mappings in order: the members built, or the first mapping that fails and why.
pub open spec fn map_fold(input: JsonData, ms: Seq<Mapping>) -> Result<Seq<(Seq<char>, JsonData)>, (int, Seq<char>)>
    decreases ms.len(),
{
    if ms.len() == 0 {
        Ok(Seq::empty())
    } else {
        match map_fold(input, ms.drop_last()) {
            Err(e) => Err(e),
            Ok(acc) => {
                let m = ms.last();
                match mapping_value(input, m) {
                    None => Err((ms.len() - 1, "source_missing"@)),
                    Some(v) => if !type_matches(m.value_type, v) {
                        Err((ms.len() - 1, "type_mismatch"@))
                    } else {
                        Ok(insert_at(acc, m.target.keys(), v))
                    },
                }
            },
        }
    }
}

fn position_of(members: &Vec<(String, JsonValue)>, key: &str) -> (result: Option<usize>)
    ensures
        index_opt(result) == key_position(object_data(*members), key@),
        result is Some ==> result->0 < members.len(),
{
    let ghost md = object_data(*members);
    let mut i: usize = 0;
    assert(md.skip(0) =~= md);
    while i < members.len()
        invariant
            i <= members.len(),
            md == object_data(*members),
            md.len() == members.len(),
            key_position(md, key@) == match key_position(md.skip(i as int), key@) {
                Some(j) => Some(j + i),
                None => None,
            },
        decreases members.len() - i,
    {
        assert(md[i as int] == (members[i as int].0@, members[i as int].1@));
        assert(md.skip(i as int)[0] == md[i as int]);
        if text_eq(members[i].0.as_str(), key) {
            return Some(i);
        }
        assert(md.skip(i as int).drop_first() =~= md.skip(i + 1));
        i = i + 1;
    }
    None
}

/// An optional position as an integer.
pub open spec fn index_opt(o: Option<usize>) -> Option<int> {
    match o {
        Some(i) => Some(i as int),
        None => None,
    }
}

/// Sets a member of an object.
fn set_member_exec(members: &mut Vec<(String, JsonValue)>, key: &str, value: JsonValue)
    ensures
        object_data(*final(members)) == set_member(object_data(*old(members)), key@, value@),
{
    match position_of(members, key) {
        Some(i) => {
            members.set(i, (owned(key), value));
        },
        None => {
            members.push((owned(key), value));
        },
    }
    assert(object_data(*members) =~= set_member(object_data(*old(members)), key@, value@));
}

/// Sets a member of an object.
pub fn set_member_exec_pub(members: &mut Vec<(String, JsonValue)>, key: &str, value: JsonValue)
    ensures
        object_data(*final(members)) == set_member(object_data(*old(members)), key@, value@),
{
    set_member_exec(members, key, value)
}

/// The keys of the tokens from position `from` on.
pub open spec fn keys_from(tokens: Seq<PointerToken>, from: int) -> Seq<Seq<char>> {
    tokens.skip(from).map_values(|t: PointerToken| t.key_view())
}

/// Writes a value at the keys of the tokens from `depth` on.
fn insert_target(members: &mut Vec<(String, JsonValue)>, tokens: &Vec<PointerToken>, depth: usize, value: JsonValue)
    requires
        depth <= tokens.len(),
    ensures
        object_data(*final(members)) == insert_at(object_data(*old(members)), keys_from(tokens@, depth as int), value@),
    decreases tokens.len() - depth,
{
    let ghost keys = keys_from(tokens@, depth as int);
    if depth == tokens.len() {
        assert(keys.len() == 0);
        return;
    }
    assert(keys[0] == tokens@[depth as int].key_view());
    if depth + 1 == tokens.len() {
        set_member_exec(members, tokens[depth].key(), value);
        return;
    }
    assert(keys.drop_first() =~= keys_from(tokens@, depth + 1));
    let key = tokens[depth].key();
    let ghost md = object_data(*members);
    match position_of(members, key) {
        Some(i) => {
            let mut slot: (String, JsonValue) = (owned(""), JsonValue::Null);
            std::mem::swap(&mut slot, &mut members[i]);
            assert(md[i as int] == (slot.0@, slot.1@));
            let mut child: Vec<(String, JsonValue)> = match slot.1 {
                JsonValue::Object(c) => c,
                _ => Vec::new(),
            };
            assert(object_data(child) =~= match md[i as int].1 {
                JsonData::Object(c) => c,
                _ => Seq::<(Seq<char>, JsonData)>::empty(),
            });
            insert_target(&mut child, tokens, depth + 1, value);
            let built = JsonValue::Object(child);
            members.set(i, (owned(key), built));
            assert(object_data(*members) =~= insert_at(md, keys, value@));
        },
        None => {
            let mut child: Vec<(String, JsonValue)> = Vec::new();
            assert(object_data(child) =~= Seq::<(Seq<char>, JsonData)>::empty());
            insert_target(&mut child, tokens, depth + 1, value);
            members.push((owned(key), JsonValue::Object(child)));
            assert(object_data(*members) =~= insert_at(md, keys, value@));
        },
    }
}

/// What a pointer designates in well-formed data is well formed.
pub proof fn lemma_resolve_wf(value: JsonData, path: Seq<(Seq<char>, Option<usize>)>)
    requires
        data_wf(value),
    ensures
        resolve(value, path) is Some ==> data_wf(resolve(value, path)->0),
    decreases path.len(),
{
    if path.len() > 0 {
        match value {
            JsonData::Object(members) => {
                crate::json_value::lemma_member_data_wf(members, path[0].0);
            },
            _ => {},
        }
        match crate::json_value::step(value, path[0].0, path[0].1) {
            Some(next) => lemma_resolve_wf(next, path.drop_first()),
            None => {},
        }
    }
}

/// A mapping whose source pointer finds a value in the input takes that value, whatever its
/// default; the default is taken only when there is no source or the pointer finds nothing.
/// So when the members built so far are `acc`, appending such a mapping writes the found value
/// at its target (if it has the mapping's type), not the default.
pub proof fn lemma_source_before_default(input: JsonData, ms: Seq<Mapping>, m: Mapping)
    ensures
        m.source is Some && resolve(input, pointer_path(m.source->0)) is Some ==> mapping_value(input, m) == resolve(
            input,
            pointer_path(m.source->0),
        ),
        m.source is None || resolve(input, pointer_path(m.source->0)) is None ==> mapping_value(input, m) == match m.default {
            Some(d) => Some(d@),
            None => None::<JsonData>,
        },
        ({
            let found = resolve(input, pointer_path(m.source->0));
            m.source is Some && found is Some && map_fold(input, ms) is Ok && type_matches(m.value_type, found->0)
                ==> map_fold(input, ms.push(m)) == Ok::<Seq<(Seq<char>, JsonData)>, (int, Seq<char>)>(
                insert_at(map_fold(input, ms)->Ok_0, m.target.keys(), found->0),
            )
        }),
{
    assert(ms.push(m).drop_last() =~= ms);
}

/// Setting a member is read back: the key now gives the new value, and every other key gives
/// what it gave before.
pub proof fn lemma_member_after_set(ms: Seq<(Seq<char>, JsonData)>, key: Seq<char>, value: JsonData, other: Seq<char>)
    ensures
        member(set_member(ms, key, value), key) == Some(value),
        other != key ==> member(set_member(ms, key, value), other) == member(ms, other),
    decreases ms.len(),
{
    let r = set_member(ms, key, value);
    if ms.len() == 0 {
        assert(r[0] == (key, value));
        assert(r.drop_first() =~= Seq::<(Seq<char>, JsonData)>::empty());
        if other != key {
            assert(member(r, other) == member(r.drop_first(), other));
        }
    } else if ms[0].0 == key {
        assert(key_position(ms, key) == Some(0int));
        assert(r[0] == (key, value));
        assert(r.drop_first() =~= ms.drop_first());
        if other != key {
            assert(member(r, other) == member(ms.drop_first(), other));
        }
    } else {
        let tail = ms.drop_first();
        lemma_member_after_set(tail, key, value, other);
        lemma_key_position(tail, key);
        match key_position(tail, key) {
            Some(j) => {
                assert(key_position(ms, key) == Some(j + 1));
                assert(r.drop_first() =~= tail.update(j, (key, value)));
            },
            None => {
                assert(key_position(ms, key) is None);
                assert(r.drop_first() =~= tail.push((key, value)));
            },
        }
        assert(r[0] == ms[0]);
        assert(r.drop_first() =~= set_member(tail, key, value));
        if other != key && ms[0].0 != other {
            assert(member(r, other) == member(set_member(tail, key, value), other));
        }
    }
}

/// What is written at a path of keys is read back there: following the path's keys from the
/// object built gives the value written (whatever indexes the path carries, objects are
/// entered by key).
pub proof fn lemma_read_after_insert(
    ms: Seq<(Seq<char>, JsonData)>,
    keys: Seq<Seq<char>>,
    path: Seq<(Seq<char>, Option<usize>)>,
    value: JsonData,
)
    requires
        keys.len() >= 1,
        path.len() == keys.len(),
        forall|i: int| 0 <= i < keys.len() ==> (#[trigger] path[i]).0 == keys[i],
    ensures
        resolve(JsonData::Object(insert_at(ms, keys, value)), path) == Some(value),
    decreases keys.len(),
{
    if keys.len() == 1 {
        lemma_member_after_set(ms, keys[0], value, keys[0]);
        assert(path.drop_first().len() == 0);
        assert(resolve(value, path.drop_first()) == Some(value));
        assert(insert_at(ms, keys, value) == set_member(ms, keys[0], value));
    } else {
        let child = match key_position(ms, keys[0]) {
            Some(i) => match ms[i].1 {
                JsonData::Object(c) => c,
                _ => Seq::empty(),
            },
            None => Seq::empty(),
        };
        let inner = JsonData::Object(insert_at(child, keys.drop_first(), value));
        lemma_member_after_set(ms, keys[0], inner, keys[0]);
        assert forall|i: int| 0 <= i < keys.drop_first().len() implies (#[trigger] path.drop_first()[i]).0
            == keys.drop_first()[i] by {
            assert(path[i + 1].0 == keys[i + 1]);
        }
        lemma_read_after_insert(child, keys.drop_first(), path.drop_first(), value);
        assert(resolve(inner, path.drop_first()) == Some(value));
        assert(insert_at(ms, keys, value) == set_member(ms, keys[0], inner));
        assert(path[0].0 == keys[0]);
    }
}

/// A mapping is read back at its target: when the mappings up to and including `m` apply,
/// the object they build holds, at `m`'s target, the value `m` takes (the source value when
/// the source pointer finds one, else the default).
pub proof fn lemma_mapping_read_back(input: JsonData, ms: Seq<Mapping>, m: Mapping)
    requires
        m.target.keys().len() >= 1,
        map_fold(input, ms.push(m)) is Ok,
    ensures
        mapping_value(input, m) is Some,
        resolve(JsonData::Object(map_fold(input, ms.push(m))->Ok_0), pointer_path(m.target)) == mapping_value(input, m),
{
    assert(ms.push(m).drop_last() =~= ms);
    assert(ms.push(m).last() == m);
    let keys = m.target.keys();
    let path = pointer_path(m.target);
    assert forall|i: int| 0 <= i < keys.len() implies (#[trigger] path[i]).0 == keys[i] by {}
    lemma_read_after_insert(map_fold(input, ms)->Ok_0, keys, path, mapping_value(input, m)->0);
}

/// How appending a mapping ends: a mapping that finds no value (no source value and no
/// default) fails at its position with `source_missing`; one whose value lacks its type fails
/// there with `type_mismatch`; and a failure earlier in the list is the failure of the whole.
pub proof fn lemma_fold_failures(input: JsonData, ms: Seq<Mapping>, m: Mapping)
    ensures
        map_fold(input, ms) is Ok && mapping_value(input, m) is None ==> map_fold(input, ms.push(m)) == Err::<
            Seq<(Seq<char>, JsonData)>,
            (int, Seq<char>),
        >((ms.len() as int, "source_missing"@)),
        map_fold(input, ms) is Ok && mapping_value(input, m) is Some && !type_matches(m.value_type, mapping_value(input, m)->0)
            ==> map_fold(input, ms.push(m)) == Err::<Seq<(Seq<char>, JsonData)>, (int, Seq<char>)>(
            (ms.len() as int, "type_mismatch"@),
        ),
        map_fold(input, ms) is Err ==> map_fold(input, ms.push(m)) == map_fold(input, ms),
{
    assert(ms.push(m).drop_last() =~= ms);
    assert(ms.push(m).last() == m);
}

/// The failure of mapping `m` at a node, for a reason.
pub open spec fn failure_matches(f: MappingFailure, node_id: Seq<char>, m: Mapping, reason: Seq<char>) -> bool {
    &&& f.node_id@ == node_id
    &&& f.target@ == m.target.source_view()
    &&& match m.source {
        Some(p) => f.source_path is Some && f.source_path->0@ == p.source_view(),
        None => f.source_path is None,
    }
    &&& f.expected_type@ == value_type_name(m.value_type)
    &&& f.reason@ == reason
}

fn mapping_failure(node_id: &str, m: &Mapping, reason: &'static str) -> (result: MappingFailure)
    ensures
        failure_matches(result, node_id@, *m, reason@),
{
    MappingFailure {
        node_id: owned(node_id),
        target: owned(m.target.as_str()),
        source_path: match &m.source {
            Some(p) => Some(owned(p.as_str())),
            None => None,
        },
        expected_type: m.value_type.name(),
        reason,
    }
}

/// Builds the output object of a map-schema node from its input.
pub fn apply_mappings(node_id: &str, input: &JsonValue, mappings: &Vec<Mapping>) -> (result: Result<JsonValue, MappingFailure>)
    requires
        input.wf(),
        forall|k: int| 0 <= k < mappings.len() ==> (#[trigger] mappings[k]).wf(),
    ensures
        match map_fold(input@, mappings@) {
            Ok(acc) => result is Ok && result->Ok_0@ == JsonData::Object(acc),
            Err((k, reason)) => result is Err && 0 <= k < mappings.len() && failure_matches(
                result->Err_0,
                node_id@,
                mappings@[k],
                reason,
            ),
        },
{
    let mut output: Vec<(String, JsonValue)> = Vec::new();
    let mut k: usize = 0;
    assert(mappings@.take(0) =~= Seq::<Mapping>::empty());
    assert(object_data(output) =~= Seq::<(Seq<char>, JsonData)>::empty());
    while k < mappings.len()
        invariant
            k <= mappings.len(),
            input.wf(),
            forall|q: int| 0 <= q < mappings.len() ==> (#[trigger] mappings[q]).wf(),
            map_fold(input@, mappings@.take(k as int)) == Ok::<Seq<(Seq<char>, JsonData)>, (int, Seq<char>)>(object_data(output)),
        decreases mappings.len() - k,
    {
        let m = &mappings[k];
        assert(mappings@.take(k + 1).drop_last() =~= mappings@.take(k as int));
        assert(mappings@.take(k + 1).last() == *m);
        let found: Option<&JsonValue> = match &m.source {
            Some(p) => input.pointer(p),
            None => None,
        };
        let value: JsonValue = match found {
            Some(v) => v.duplicate(),
            None => match &m.default {
                Some(d) => d.duplicate(),
                None => {
                    proof {
                        lemma_fold_stops(input@, mappings@, k as int);
                    }
                    return Err(mapping_failure(node_id, m, "source_missing"));
                },
            },
        };
        proof {
            if m.source is Some {
                lemma_resolve_wf(input@, pointer_path(m.source->0));
            }
        }
        assert(mapping_value(input@, *m) == Some(value@));
        if !m.value_type.matches(&value) {
            proof {
                lemma_fold_stops(input@, mappings@, k as int);
            }
            return Err(mapping_failure(node_id, m, "type_mismatch"));
        }
        insert_target(&mut output, m.target.tokens(), 0, value);
        proof {
            assert(keys_from(m.target.token_seq(), 0) =~= m.target.keys());
        }
        k = k + 1;
    }
    assert(mappings@.take(mappings.len() as int) =~= mappings@);
    Ok(JsonValue::Object(output))
}

/// A fold that fails at position `k` fails there for every longer prefix.
proof fn lemma_fold_stops(input: JsonData, ms: Seq<Mapping>, k: int)
    requires
        0 <= k < ms.len(),
        map_fold(input, ms.take(k + 1)) is Err,
    ensures
        map_fold(input, ms) == map_fold(input, ms.take(k + 1)),
    decreases ms.len() - k,
{
    if k + 1 < ms.len() {
        assert(ms.take(k + 2).drop_last() =~= ms.take(k + 1));
        lemma_fold_stops(input, ms, k + 1);
    } else {
        assert(ms.take(k + 1) =~= ms);
    }
}

/// Members whose values are all well formed.
pub open spec fn members_wf(ms: Seq<(Seq<char>, JsonData)>) -> bool {
    forall|i: int| 0 <= i < ms.len() ==> data_wf(#[trigger] ms[i].1)
}

proof fn lemma_key_position(ms: Seq<(Seq<char>, JsonData)>, key: Seq<char>)
    ensures
        key_position(ms, key) is Some ==> 0 <= key_position(ms, key)->0 < ms.len(),
    decreases ms.len(),
{
    if ms.len() > 0 && ms[0].0 != key {
        lemma_key_position(ms.drop_first(), key);
    }
}

/// Setting a well-formed value keeps every value well formed.
pub proof fn lemma_set_member_wf(ms: Seq<(Seq<char>, JsonData)>, key: Seq<char>, value: JsonData)
    requires
        members_wf(ms),
        data_wf(value),
    ensures
        members_wf(set_member(ms, key, value)),
{
    lemma_key_position(ms, key);
    let r = set_member(ms, key, value);
    assert forall|i: int| 0 <= i < r.len() implies data_wf(#[trigger] r[i].1) by {
        if i < ms.len() && (key_position(ms, key) is None || key_position(ms, key)->0 != i) {
            assert(r[i] == ms[i]);
        }
    }
}

/// Writing a well-formed value keeps every value well formed.
pub proof fn lemma_insert_at_wf(ms: Seq<(Seq<char>, JsonData)>, keys: Seq<Seq<char>>, value: JsonData)
    requires
        members_wf(ms),
        data_wf(value),
    ensures
        members_wf(insert_at(ms, keys, value)),
    decreases keys.len(),
{
    if keys.len() == 1 {
        lemma_set_member_wf(ms, keys[0], value);
    } else if keys.len() > 1 {
        lemma_key_position(ms, keys[0]);
        let child = match key_position(ms, keys[0]) {
            Some(i) => match ms[i].1 {
                JsonData::Object(c) => c,
                _ => Seq::empty(),
            },
            None => Seq::empty(),
        };
        assert(members_wf(child)) by {
            if key_position(ms, keys[0]) is Some {
                let i = key_position(ms, keys[0])->0;
                assert(data_wf(ms[i].1));
            }
        }
        lemma_insert_at_wf(child, keys.drop_first(), value);
        let inner = JsonData::Object(insert_at(child, keys.drop_first(), value));
        assert(data_wf(inner));
        lemma_set_member_wf(ms, keys[0], inner);
    }
}

/// A successful fold builds well-formed members.
pub proof fn lemma_fold_wf(input: JsonData, ms: Seq<Mapping>)
    requires
        data_wf(input),
        forall|k: int| 0 <= k < ms.len() ==> (#[trigger] ms[k]).wf(),
    ensures
        map_fold(input, ms) is Ok ==> members_wf(map_fold(input, ms)->Ok_0),
    decreases ms.len(),
{
    if ms.len() > 0 {
        lemma_fold_wf(input, ms.drop_last());
        let m = ms.last();
        assert(m.wf());
        if m.source is Some {
            lemma_resolve_wf(input, pointer_path(m.source->0));
        }
        match map_fold(input, ms.drop_last()) {
            Ok(acc) => match mapping_value(input, m) {
                Some(v) => {
                    lemma_insert_at_wf(acc, m.target.keys(), v);
                },
                None => {},
            },
            Err(_) => {},
        }
    }
}

} // verus!
