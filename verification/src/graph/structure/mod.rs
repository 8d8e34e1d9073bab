//! Structural validation: the document envelope, property sets, identifiers and pointers.
pub mod gate;
pub mod mapping;
pub mod node;

use vstd::prelude::*;

use crate::diagnostics::{concat_indexed, issue_views, lemma_concat_indexed_all, lemma_concat_indexed_step,
    push_issue, push_issue_owned, IssueData, IssueView};
use crate::json_pointer::{is_identifier, is_pointer, joined, valid_identifier, valid_pointer, join_pointer};
use crate::json_value::{array_data, data_text, member, member_contains, member_get, object_data, JsonData,
    JsonValue};
use crate::text::{concat, debug_quoted, debug_text, owned, text_eq};

verus! {

/// `[entry, output, nodes]`: the root properties, all required.
pub open spec fn root_properties() -> Seq<Seq<char>> {
    seq!["entry"@, "output"@, "nodes"@]
}

/// The issue for a missing required property.
pub open spec fn missing_property(path: Seq<char>, name: Seq<char>) -> IssueView {
    (path, "SCHEMA_REQUIRED"@, "required property "@ + debug_text(name) + " is missing"@)
}

pub open spec fn required_fn(members: Seq<(Seq<char>, JsonData)>, path: Seq<char>) -> spec_fn(int, Seq<char>) -> Seq<IssueView> {
    |i: int, name: Seq<char>| if member(members, name) is Some { Seq::empty() } else { seq![missing_property(path, name)] }
}

pub open spec fn unknown_fn(path: Seq<char>, allowed: Seq<Seq<char>>) -> spec_fn(int, (Seq<char>, JsonData)) -> Seq<IssueView> {
    |i: int, m: (Seq<char>, JsonData)| if allowed.contains(m.0) { Seq::empty() } else {
        seq![(joined(path, m.0), "SCHEMA_UNKNOWN"@, "unknown property"@)]
    }
}

/// Missing required properties, in the order `required` lists them, then unknown properties,
/// in member order.
pub open spec fn property_issues(
    members: Seq<(Seq<char>, JsonData)>,
    path: Seq<char>,
    allowed: Seq<Seq<char>>,
    required: Seq<Seq<char>>,
) -> Seq<IssueView> {
    concat_indexed(required, required_fn(members, path)) + concat_indexed(members, unknown_fn(path, allowed))
}

/// The views of a list of property names.
pub open spec fn names(list: Seq<&str>) -> Seq<Seq<char>> {
    list.map_values(|s: &str| s@)
}

fn list_contains(list: &[&str], key: &str) -> (result: bool)
    ensures
        result == names(list@).contains(key@),
{
    let mut i: usize = 0;
    while i < list.len()
        invariant
            i <= list.len(),
            forall|k: int| 0 <= k < i ==> list@[k]@ != key@,
        decreases list.len() - i,
    {
        if text_eq(list[i], key) {
            assert(names(list@)[i as int] == key@);
            return true;
        }
        i = i + 1;
    }
    assert forall|k: int| 0 <= k < names(list@).len() implies names(list@)[k] != key@ by {
        assert(names(list@)[k] == list@[k]@);
    }
    false
}

/// Reports missing required properties, in the order `required` lists them.
pub fn validate_required(members: &Vec<(String, JsonValue)>, path: &str, required: &[&str], issues: &mut Vec<IssueData>)
    ensures
        issue_views(final(issues)@) == issue_views(old(issues)@) + concat_indexed(
            names(required@),
            required_fn(object_data(*members), path@),
        ),
{
    let ghost data = object_data(*members);
    let ghost req = names(required@);
    let ghost f = required_fn(data, path@);
    let ghost start = issue_views(issues@);
    let mut i: usize = 0;
    while i < required.len()
        invariant
            i <= required.len(),
            req == names(required@),
            data == object_data(*members),
            f == required_fn(data, path@),
            issue_views(issues@) == start + concat_indexed(req.take(i as int), f),
        decreases required.len() - i,
    {
        proof {
            lemma_concat_indexed_step(req, i as int, f);
        }
        let name = required[i];
        assert(req[i as int] == name@);
        if !member_contains(members, name) {
            let message = concat(concat("required property ", debug_quoted(name).as_str()).as_str(), " is missing");
            push_issue_owned(issues, "SCHEMA_REQUIRED", owned(path), message);
        }
        assert(issue_views(issues@) =~= start + concat_indexed(req.take(i + 1), f));
        i = i + 1;
    }
    proof {
        lemma_concat_indexed_all(req, f);
    }
}

/// Reports missing required and unknown properties of an object.
pub fn validate_properties(
    members: &Vec<(String, JsonValue)>,
    path: &str,
    allowed: &[&str],
    required: &[&str],
    issues: &mut Vec<IssueData>,
)
    ensures
        issue_views(final(issues)@) == issue_views(old(issues)@) + property_issues(
            object_data(*members),
            path@,
            names(allowed@),
            names(required@),
        ),
{
    let ghost data = object_data(*members);
    let ghost start = issue_views(issues@);
    validate_required(members, path, required, issues);
    let ghost mid = issue_views(issues@);
    let ghost g = unknown_fn(path@, names(allowed@));
    let mut j: usize = 0;
    while j < members.len()
        invariant
            j <= members.len(),
            data == object_data(*members),
            data.len() == members.len(),
            g == unknown_fn(path@, names(allowed@)),
            issue_views(issues@) == mid + concat_indexed(data.take(j as int), g),
        decreases members.len() - j,
    {
        proof {
            lemma_concat_indexed_step(data, j as int, g);
        }
        let key = members[j].0.as_str();
        assert(data[j as int].0 == key@);
        if !list_contains(allowed, key) {
            push_issue(issues, "SCHEMA_UNKNOWN", join_pointer(path, key), "unknown property");
        }
        assert(issue_views(issues@) =~= mid + concat_indexed(data.take(j + 1), g));
        j = j + 1;
    }
    proof {
        lemma_concat_indexed_all(data, g);
    }
    assert(issue_views(issues@) =~= start + property_issues(data, path@, names(allowed@), names(required@)));
}

/// Identifier syntax, and the reserved `GWALL` when `reserve` holds.
pub open spec fn identifier_text_issues(value: Seq<char>, path: Seq<char>, reserve: bool) -> Seq<IssueView> {
    if !is_identifier(value) {
        seq![(path, "ID_INVALID"@, "identifier has invalid syntax"@)]
    } else if reserve && value == "GWALL"@ {
        seq![(path, "ID_RESERVED"@, "GWALL is reserved"@)]
    } else {
        Seq::empty()
    }
}

/// An optional identifier-valued property.
pub open spec fn identifier_field_issues(value: Option<JsonData>, path: Seq<char>, reserve: bool) -> Seq<IssueView> {
    match value {
        Some(JsonData::Text(text)) => identifier_text_issues(text, path, reserve),
        Some(_) => seq![(path, "SCHEMA_TYPE"@, "identifier must be a string"@)],
        None => Seq::empty(),
    }
}

/// Pointer syntax: `""` is allowed only when `allow_root`.
pub open spec fn pointer_ok(value: Seq<char>, allow_root: bool) -> bool {
    if value.len() == 0 {
        allow_root
    } else {
        is_pointer(value)
    }
}

/// An optional pointer-valued property.
pub open spec fn pointer_field_issues(value: Option<JsonData>, path: Seq<char>, allow_root: bool) -> Seq<IssueView> {
    match value {
        Some(JsonData::Text(text)) => if pointer_ok(text, allow_root) {
            Seq::empty()
        } else {
            seq![(path, "SCHEMA_VALUE"@, "invalid JSON Pointer"@)]
        },
        Some(_) => seq![(path, "SCHEMA_TYPE"@, "JSON Pointer must be a string"@)],
        None => Seq::empty(),
    }
}

/// Reports identifier syntax and the reserved word.
pub fn validate_identifier_text(value: &str, path: String, reserve: bool, issues: &mut Vec<IssueData>)
    ensures
        issue_views(final(issues)@) == issue_views(old(issues)@) + identifier_text_issues(value@, path@, reserve),
{
    if !valid_identifier(value) {
        push_issue(issues, "ID_INVALID", path, "identifier has invalid syntax");
    } else if reserve && text_eq(value, "GWALL") {
        push_issue(issues, "ID_RESERVED", path, "GWALL is reserved");
    } else {
        assert(issue_views(issues@) =~= issue_views(old(issues)@) + identifier_text_issues(value@, path@, reserve));
    }
}

/// Reports an identifier-valued property of the wrong type or syntax.
pub fn validate_identifier_field(value: Option<&JsonValue>, path: String, reserve: bool, issues: &mut Vec<IssueData>)
    ensures
        issue_views(final(issues)@) == issue_views(old(issues)@) + identifier_field_issues(
            match value {
                Some(v) => Some(v@),
                None => None,
            },
            path@,
            reserve,
        ),
{
    match value {
        Some(JsonValue::String(text)) => validate_identifier_text(text.as_str(), path, reserve, issues),
        Some(_) => push_issue(issues, "SCHEMA_TYPE", path, "identifier must be a string"),
        None => {
            assert(issue_views(issues@) =~= issue_views(old(issues)@) + Seq::<IssueView>::empty());
        },
    }
}

/// Reports a present identifier-valued property of the wrong type or syntax.
pub fn validate_optional_identifier(value: Option<&JsonValue>, path: String, issues: &mut Vec<IssueData>)
    ensures
        issue_views(final(issues)@) == issue_views(old(issues)@) + identifier_field_issues(
            match value {
                Some(v) => Some(v@),
                None => None,
            },
            path@,
            true,
        ),
{
    if value.is_some() {
        validate_identifier_field(value, path, true, issues);
    } else {
        assert(issue_views(issues@) =~= issue_views(old(issues)@) + Seq::<IssueView>::empty());
    }
}

/// Reports a pointer-valued property of the wrong type or syntax.
pub fn validate_pointer_field(value: Option<&JsonValue>, path: String, allow_root: bool, issues: &mut Vec<IssueData>)
    ensures
        issue_views(final(issues)@) == issue_views(old(issues)@) + pointer_field_issues(
            match value {
                Some(v) => Some(v@),
                None => None,
            },
            path@,
            allow_root,
        ),
{
    match value {
        Some(JsonValue::String(text)) => {
            if !valid_pointer(text.as_str(), allow_root) {
                push_issue(issues, "SCHEMA_VALUE", path, "invalid JSON Pointer");
            } else {
                assert(issue_views(issues@) =~= issue_views(old(issues)@) + Seq::<IssueView>::empty());
            }
        },
        Some(_) => push_issue(issues, "SCHEMA_TYPE", path, "JSON Pointer must be a string"),
        None => {
            assert(issue_views(issues@) =~= issue_views(old(issues)@) + Seq::<IssueView>::empty());
        },
    }
}

/// The optional value of a member, as data.
pub open spec fn field(members: Seq<(Seq<char>, JsonData)>, key: Seq<char>) -> Option<JsonData> {
    member(members, key)
}

pub open spec fn node_fn() -> spec_fn(int, JsonData) -> Seq<IssueView> {
    |i: int, node: JsonData| node::node_issues(node, i)
}

/// All structural issues of a specification.
pub open spec fn structure_issues(value: JsonData) -> Seq<IssueView> {
    match value {
        JsonData::Object(root) => property_issues(root, ""@, root_properties(), root_properties())
            + identifier_field_issues(field(root, "entry"@), "/entry"@, true)
            + identifier_field_issues(field(root, "output"@), "/output"@, true)
            + match field(root, "nodes"@) {
                None => Seq::empty(),
                Some(JsonData::Array(nodes)) => (if nodes.len() == 0 {
                    seq![("/nodes"@, "SCHEMA_VALUE"@, "nodes must not be empty"@)]
                } else {
                    Seq::empty()
                }) + concat_indexed(nodes, node_fn()),
                Some(_) => seq![("/nodes"@, "SCHEMA_TYPE"@, "nodes must be an array"@)],
            },
        _ => seq![(""@, "SCHEMA_TYPE"@, "specification must be an object"@)],
    }
}

/// Reports every structural issue of a specification.
pub fn validate_structure(value: &JsonValue, issues: &mut Vec<IssueData>)
    requires
        value.wf(),
    ensures
        issue_views(final(issues)@) == issue_views(old(issues)@) + structure_issues(value@),
{
    let ghost start = issue_views(issues@);
    let root = match value.object() {
        Some(root) => root,
        None => {
            push_issue(issues, "SCHEMA_TYPE", owned(""), "specification must be an object");
            return;
        },
    };
    let ghost rd = object_data(*root);
    assert(value@ == JsonData::Object(rd));
    {
        let allowed: &[&str] = &["entry", "output", "nodes"];
        let required: &[&str] = &["entry", "output", "nodes"];
        assert(names(allowed@) =~= seq!["entry"@, "output"@, "nodes"@]);
        assert(names(required@) =~= seq!["entry"@, "output"@, "nodes"@]);
        validate_properties(root, "", allowed, required, issues);
    }
    validate_identifier_field(member_get(root, "entry"), owned("/entry"), true, issues);
    validate_identifier_field(member_get(root, "output"), owned("/output"), true, issues);
    let ghost before_nodes = issue_views(issues@);
    let nodes = match member_get(root, "nodes") {
        None => {
            assert(issue_views(issues@) =~= start + structure_issues(value@));
            return;
        },
        Some(nodes) => nodes,
    };
    let nodes = match nodes.array() {
        Some(nodes) => nodes,
        None => {
            push_issue(issues, "SCHEMA_TYPE", owned("/nodes"), "nodes must be an array");
            assert(issue_views(issues@) =~= start + structure_issues(value@));
            return;
        },
    };
    let ghost nd = array_data(*nodes);
    proof {
        mapping::lemma_member_wf(rd, "nodes"@);
    }
    if nodes.len() == 0 {
        push_issue(issues, "SCHEMA_VALUE", owned("/nodes"), "nodes must not be empty");
    }
    let ghost mid = issue_views(issues@);
    let mut i: usize = 0;
    while i < nodes.len()
        invariant
            i <= nodes.len(),
            nd == array_data(*nodes),
            nd.len() == nodes.len(),
            crate::json_value::data_wf(JsonData::Array(nd)),
            issue_views(issues@) == mid + concat_indexed(nd.take(i as int), node_fn()),
        decreases nodes.len() - i,
    {
        proof {
            lemma_concat_indexed_step(nd, i as int, node_fn());
        }
        assert(nd[i as int] == nodes[i as int]@);
        assert(crate::json_value::data_wf(nd[i as int]));
        node::validate_node(&nodes[i], i, issues);
        assert(issue_views(issues@) =~= mid + concat_indexed(nd.take(i + 1), node_fn()));
        i = i + 1;
    }
    proof {
        lemma_concat_indexed_all(nd, node_fn());
    }
    assert(issue_views(issues@) =~= start + structure_issues(value@));
}

} // verus!
