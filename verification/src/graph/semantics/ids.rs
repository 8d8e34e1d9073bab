//! Node identifiers: which node an identifier names, and identifiers defined twice.
use vstd::prelude::*;
use vstd::hash_map::StringHashMap;

use crate::diagnostics::{concat_indexed, issue_views, lemma_concat_indexed_all, lemma_concat_indexed_step,
    push_issue, IssueData, IssueView};
use crate::json_pointer::{is_identifier, valid_identifier};
use crate::json_value::{array_data, data_text, member, member_get, JsonData, JsonValue};
use crate::text::{concat, node_path, node_path_string, owned, text_eq};

verus! {

/// The text of a member of an object node, when the node is an object and the member a string.
pub open spec fn node_text(node: JsonData, key: Seq<char>) -> Option<Seq<char>> {
    match node {
        JsonData::Object(m) => match member(m, key) {
            Some(v) => data_text(v),
            None => None,
        },
        _ => None,
    }
}

/// The member of an object node.
pub open spec fn node_field(node: JsonData, key: Seq<char>) -> Option<JsonData> {
    match node {
        JsonData::Object(m) => member(m, key),
        _ => None,
    }
}

/// An identifier that can name a node: well formed and not the reserved `GWALL`.
pub open spec fn usable_id(t: Seq<char>) -> bool {
    is_identifier(t) && t != "GWALL"@
}

/// The identifier a node defines, when it defines a usable one.
pub open spec fn node_id(node: JsonData) -> Option<Seq<char>> {
    match node_text(node, "id"@) {
        Some(t) => if usable_id(t) {
            Some(t)
        } else {
            None
        },
        None => None,
    }
}

/// How many nodes define `id`.
pub open spec fn id_count(nodes: Seq<JsonData>, id: Seq<char>) -> nat
    decreases nodes.len(),
{
    if nodes.len() == 0 {
        0
    } else {
        id_count(nodes.drop_last(), id) + if node_id(nodes.last()) == Some(id) {
            1nat
        } else {
            0nat
        }
    }
}

/// The first node that defines `id`.
pub open spec fn first_index(nodes: Seq<JsonData>, id: Seq<char>) -> int
    decreases nodes.len(),
{
    if nodes.len() == 0 {
        -1
    } else if id_count(nodes.drop_last(), id) >= 1 {
        first_index(nodes.drop_last(), id)
    } else {
        nodes.len() - 1
    }
}

/// The node an identifier names: the one node that defines it, when exactly one does.
pub open spec fn id_target(nodes: Seq<JsonData>, id: Seq<char>) -> Option<int> {
    if id_count(nodes, id) == 1 {
        Some(first_index(nodes, id))
    } else {
        None
    }
}

/// Counting over a prefix one node longer.
pub proof fn lemma_id_count_step(nodes: Seq<JsonData>, i: int, id: Seq<char>)
    requires
        0 <= i < nodes.len(),
    ensures
        id_count(nodes.take(i + 1), id) == id_count(nodes.take(i), id) + if node_id(nodes[i]) == Some(id) {
            1nat
        } else {
            0nat
        },
        first_index(nodes.take(i + 1), id) == if id_count(nodes.take(i), id) >= 1 {
            first_index(nodes.take(i), id)
        } else {
            i
        },
{
    assert(nodes.take(i + 1).drop_last() =~= nodes.take(i));
}

/// The first defining node defines the identifier.
pub proof fn lemma_first_index(nodes: Seq<JsonData>, id: Seq<char>)
    requires
        id_count(nodes, id) >= 1,
    ensures
        0 <= first_index(nodes, id) < nodes.len(),
        node_id(nodes[first_index(nodes, id)]) == Some(id),
        id_count(nodes.take(first_index(nodes, id)), id) == 0,
    decreases nodes.len(),
{
    if id_count(nodes.drop_last(), id) >= 1 {
        lemma_first_index(nodes.drop_last(), id);
        let f = first_index(nodes, id);
        assert(nodes.drop_last().take(f) =~= nodes.take(f));
    } else {
        assert(nodes.take(nodes.len() - 1) =~= nodes.drop_last());
    }
}

/// A node that defines the identifier is counted.
pub proof fn lemma_id_count_member(nodes: Seq<JsonData>, id: Seq<char>, i: int)
    requires
        0 <= i < nodes.len(),
        node_id(nodes[i]) == Some(id),
    ensures
        id_count(nodes, id) >= 1,
        id_count(nodes, id) == 1 ==> first_index(nodes, id) == i,
    decreases nodes.len(),
{
    if i < nodes.len() - 1 {
        lemma_id_count_member(nodes.drop_last(), id, i);
        if id_count(nodes, id) == 1 {
            assert(node_id(nodes.last()) != Some(id));
        }
    } else if id_count(nodes.drop_last(), id) >= 1 {
        assert(id_count(nodes, id) >= 2);
    }
}

/// `/nodes/{index}/id`.
pub open spec fn id_path(index: int) -> Seq<char> {
    node_path(index) + "/id"@
}

/// A node that repeats an identifier an earlier node defined.
pub open spec fn collision_fn(nodes: Seq<JsonData>) -> spec_fn(int, JsonData) -> Seq<IssueView> {
    |i: int, node: JsonData| match node_id(node) {
        Some(id) => if id_count(nodes.take(i), id) >= 1 {
            seq![(id_path(i), "ID_COLLISION"@, "node identifier collides with an earlier definition"@)]
        } else {
            Seq::empty()
        },
        None => Seq::empty(),
    }
}

/// Every node that repeats an identifier, in node order.
pub open spec fn id_collision_issues(nodes: Seq<JsonData>) -> Seq<IssueView> {
    concat_indexed(nodes, collision_fn(nodes))
}

/// The identifiers of a node list: for each, how many nodes define it and the first of them.
pub struct IdIndex {
    counts: StringHashMap<usize>,
    first: StringHashMap<usize>,
}

impl IdIndex {
    /// The index describes `nodes`.
    pub closed spec fn describes(&self, nodes: Seq<JsonData>) -> bool {
        &&& forall|id: Seq<char>| #[trigger] self.counts@.contains_key(id) <==> id_count(nodes, id) >= 1
        &&& forall|id: Seq<char>| #[trigger] self.first@.contains_key(id) <==> id_count(nodes, id) >= 1
        &&& forall|id: Seq<char>| self.counts@.contains_key(id) ==> #[trigger] self.counts@[id] == id_count(nodes, id)
        &&& forall|id: Seq<char>| self.first@.contains_key(id) ==> #[trigger] self.first@[id] == first_index(nodes, id)
    }

    /// The node that `id` names, when exactly one node defines it.
    pub fn target(&self, id: &str, nodes: Ghost<Seq<JsonData>>) -> (result: Option<usize>)
        requires
            self.describes(nodes@),
        ensures
            match result {
                Some(i) => id_target(nodes@, id@) == Some(i as int),
                None => id_target(nodes@, id@) is None,
            },
    {
        match self.counts.get(id) {
            Some(c) => {
                if *c == 1 {
                    match self.first.get(id) {
                        Some(f) => Some(*f),
                        None => None,
                    }
                } else {
                    None
                }
            },
            None => None,
        }
    }

    /// The node that `id` names, with its position among the nodes.
    pub fn lookup(&self, id: &str, nodes: Ghost<Seq<JsonData>>) -> (result: Option<usize>)
        requires
            self.describes(nodes@),
        ensures
            match result {
                Some(i) => id_target(nodes@, id@) == Some(i as int) && (i as int) < nodes@.len(),
                None => id_target(nodes@, id@) is None,
            },
    {
        let result = self.target(id, nodes);
        proof {
            if result is Some {
                lemma_first_index(nodes@, id@);
            }
        }
        result
    }

    /// Whether some node defines `id`.
    pub fn defined(&self, id: &str, nodes: Ghost<Seq<JsonData>>) -> (result: bool)
        requires
            self.describes(nodes@),
        ensures
            result == (id_count(nodes@, id@) >= 1),
    {
        self.counts.contains_key(id)
    }
}

/// The text of a member of an object node.
pub fn text_of<'a>(node: &'a JsonValue, key: &str) -> (result: Option<&'a str>)
    ensures
        match result {
            Some(t) => node_text(node@, key@) == Some(t@),
            None => node_text(node@, key@) is None,
        },
{
    match node.object() {
        Some(m) => match member_get(m, key) {
            Some(v) => v.string(),
            None => None,
        },
        None => None,
    }
}

/// The member of an object node.
pub fn field_of<'a>(node: &'a JsonValue, key: &str) -> (result: Option<&'a JsonValue>)
    ensures
        match result {
            Some(v) => node_field(node@, key@) == Some(v@),
            None => node_field(node@, key@) is None,
        },
{
    match node.object() {
        Some(m) => member_get(m, key),
        None => None,
    }
}

/// Whether a text can name a node.
pub fn is_usable_id(t: &str) -> (result: bool)
    ensures
        result == usable_id(t@),
{
    valid_identifier(t) && !text_eq(t, "GWALL")
}

/// The usable identifier a node defines.
pub fn id_of(node: &JsonValue) -> (result: Option<&str>)
    ensures
        match result {
            Some(t) => node_id(node@) == Some(t@),
            None => node_id(node@) is None,
        },
{
    match text_of(node, "id") {
        Some(t) => if is_usable_id(t) {
            Some(t)
        } else {
            None
        },
        None => None,
    }
}

/// Indexes the node identifiers and reports each node that repeats one.
pub fn index_ids(nodes: &Vec<JsonValue>, issues: &mut Vec<IssueData>) -> (result: IdIndex)
    ensures
        result.describes(array_data(*nodes)),
        issue_views(final(issues)@) == issue_views(old(issues)@) + id_collision_issues(array_data(*nodes)),
{
    let ghost nd = array_data(*nodes);
    let ghost start = issue_views(issues@);
    let mut counts: StringHashMap<usize> = StringHashMap::new();
    let mut first: StringHashMap<usize> = StringHashMap::new();
    let mut i: usize = 0;
    while i < nodes.len()
        invariant
            i <= nodes.len(),
            nd == array_data(*nodes),
            nd.len() == nodes.len(),
            forall|id: Seq<char>| #[trigger] counts@.contains_key(id) <==> id_count(nd.take(i as int), id) >= 1,
            forall|id: Seq<char>| #[trigger] first@.contains_key(id) <==> id_count(nd.take(i as int), id) >= 1,
            forall|id: Seq<char>| counts@.contains_key(id) ==> #[trigger] counts@[id] == id_count(nd.take(i as int), id),
            forall|id: Seq<char>| first@.contains_key(id) ==> #[trigger] first@[id] == first_index(nd.take(i as int), id),
            forall|id: Seq<char>| id_count(nd.take(i as int), id) <= i,
            issue_views(issues@) == start + concat_indexed(nd.take(i as int), collision_fn(nd)),
        decreases nodes.len() - i,
    {
        proof {
            lemma_concat_indexed_step(nd, i as int, collision_fn(nd));
            assert forall|id: Seq<char>| #![trigger id_count(nd.take(i + 1), id)] #![trigger first_index(nd.take(i + 1), id)] true implies id_count(nd.take(i + 1), id) == id_count(nd.take(i as int), id)
                + (if node_id(nd[i as int]) == Some(id) { 1nat } else { 0nat })
                && first_index(nd.take(i + 1), id) == (if id_count(nd.take(i as int), id) >= 1 {
                    first_index(nd.take(i as int), id)
                } else {
                    i as int
                }) && id_count(nd.take(i + 1), id) <= i + 1 by {
                lemma_id_count_step(nd, i as int, id);
                assert(id_count(nd.take(i as int), id) <= i);
            }
        }
        assert(nd[i as int] == nodes[i as int]@);
        match id_of(&nodes[i]) {
            Some(id) => {
                match counts.get(id) {
                    Some(c) => {
                        let c2: usize = *c + 1;
                        counts.insert(owned(id), c2);
                        push_issue(issues, "ID_COLLISION", concat(node_path_string(i).as_str(), "/id"), "node identifier collides with an earlier definition");
                    },
                    None => {
                        counts.insert(owned(id), 1);
                        first.insert(owned(id), i);
                    },
                }
            },
            None => {},
        }
        assert(issue_views(issues@) =~= start + concat_indexed(nd.take(i + 1), collision_fn(nd)));
        i = i + 1;
    }
    proof {
        lemma_concat_indexed_all(nd, collision_fn(nd));
        assert(nd.take(nodes.len() as int) =~= nd);
    }
    IdIndex { counts, first }
}

} // verus!
