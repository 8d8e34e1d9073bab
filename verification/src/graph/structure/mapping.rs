//! Structural validation of one map-schema mapping.
use vstd::prelude::*;

use super::{field, names, pointer_field_issues, property_issues, validate_pointer_field, validate_properties};
use crate::diagnostics::{issue_views, push_issue, IssueData, IssueView};
use crate::graph::model::ValueType;
use crate::graph::numbers::{type_matches, value_type_named};
use crate::json_value::{data_wf, member_contains, member_get, object_data, JsonData, JsonValue};
use crate::text::{concat, owned};

verus! {

pub open spec fn mapping_allowed() -> Seq<Seq<char>> {
    seq!["target"@, "path-to-source"@, "default"@, "type"@]
}

pub open spec fn mapping_required() -> Seq<Seq<char>> {
    seq!["target"@, "type"@]
}

/// The declared type of a mapping, when it names one.
pub open spec fn declared_type(m: Seq<(Seq<char>, JsonData)>) -> Option<ValueType> {
    match field(m, "type"@) {
        Some(JsonData::Text(t)) => value_type_named(t),
        _ => None,
    }
}

/// The structural issues of one mapping at `path`.
pub open spec fn mapping_issues(value: JsonData, path: Seq<char>) -> Seq<IssueView> {
    match value {
        JsonData::Object(m) => property_issues(m, path, mapping_allowed(), mapping_required())
            + pointer_field_issues(field(m, "target"@), path + "/target"@, false)
            + pointer_field_issues(field(m, "path-to-source"@), path + "/path-to-source"@, true)
            + (if field(m, "path-to-source"@) is None && field(m, "default"@) is None {
                seq![(path, "SCHEMA_REQUIRED"@, "mapping requires path-to-source or default"@)]
            } else {
                Seq::empty()
            })
            + (if field(m, "type"@) is Some && declared_type(m) is None {
                seq![(path + "/type"@, "SCHEMA_VALUE"@, "unsupported mapping type"@)]
            } else {
                Seq::empty()
            })
            + (if field(m, "default"@) is Some && declared_type(m) is Some && !type_matches(
                declared_type(m)->Some_0,
                field(m, "default"@)->Some_0,
            ) {
                seq![(path + "/default"@, "MAPPING_DEFAULT"@, "default does not satisfy the declared type"@)]
            } else {
                Seq::empty()
            }),
        _ => seq![(path, "SCHEMA_TYPE"@, "mapping must be an object"@)],
    }
}

/// A member of a well-formed object is well formed.
pub proof fn lemma_member_wf(members: Seq<(Seq<char>, JsonData)>, key: Seq<char>)
    requires
        forall|i: int| 0 <= i < members.len() ==> data_wf(#[trigger] members[i].1),
    ensures
        crate::json_value::member(members, key) matches Some(v) ==> data_wf(v),
    decreases members.len(),
{
    if members.len() > 0 && members[0].0 != key {
        assert forall|i: int| 0 <= i < members.drop_first().len() implies data_wf(#[trigger] members.drop_first()[i].1) by {
            assert(members.drop_first()[i] == members[i + 1]);
        }
        lemma_member_wf(members.drop_first(), key);
    }
}

/// Reports the structural issues of one mapping.
#[verifier::rlimit(30)]
pub fn validate_mapping(value: &JsonValue, path: String, issues: &mut Vec<IssueData>)
    requires
        value.wf(),
    ensures
        issue_views(final(issues)@) == issue_views(old(issues)@) + mapping_issues(value@, path@),
{
    let ghost start = issue_views(issues@);
    let mapping = match value.object() {
        Some(m) => m,
        None => {
            push_issue(issues, "SCHEMA_TYPE", path, "mapping must be an object");
            return;
        },
    };
    let ghost m = object_data(*mapping);
    {
        let allowed: &[&str] = &["target", "path-to-source", "default", "type"];
        let required: &[&str] = &["target", "type"];
        assert(super::names(allowed@) =~= mapping_allowed());
        assert(super::names(required@) =~= mapping_required());
        validate_properties(mapping, path.as_str(), allowed, required, issues);
    }
    validate_pointer_field(member_get(mapping, "target"), concat(path.as_str(), "/target"), false, issues);
    validate_pointer_field(member_get(mapping, "path-to-source"), concat(path.as_str(), "/path-to-source"), true, issues);
    let ghost a = issue_views(issues@);
    if !member_contains(mapping, "path-to-source") && !member_contains(mapping, "default") {
        push_issue(issues, "SCHEMA_REQUIRED", owned(path.as_str()), "mapping requires path-to-source or default");
    }
    let ghost b = issue_views(issues@);
    let declared = match member_get(mapping, "type") {
        Some(t) => match t.string() {
            Some(name) => ValueType::parse(name),
            None => None,
        },
        None => None,
    };
    assert(declared == declared_type(m));
    if member_contains(mapping, "type") && declared.is_none() {
        push_issue(issues, "SCHEMA_VALUE", concat(path.as_str(), "/type"), "unsupported mapping type");
    }
    let ghost c = issue_views(issues@);
    match (member_get(mapping, "default"), declared) {
        (Some(default), Some(value_type)) => {
            proof {
                lemma_member_wf(m, "default"@);
            }
            if !value_type.matches(default) {
                push_issue(issues, "MAPPING_DEFAULT", concat(path.as_str(), "/default"),
                    "default does not satisfy the declared type");
            }
        },
        _ => {},
    }
    assert(issue_views(issues@) =~= start + mapping_issues(value@, path@));
}

} // verus!
