//! JSON values as the router holds them: signed 64-bit integers, finite binary64 numbers,
//! and objects as ordered lists of uniquely keyed members.
use vstd::prelude::*;

use crate::json_parsing::pointer::{JsonPointer, PointerToken};

verus! {

broadcast use vstd::std_specs::vec::group_vec_axioms;

/// An IEEE-754 binary64 number, held by its bit pattern.
#[derive(Clone, Copy, Debug, PartialEq, Eq, Structural)]
pub struct Binary64 {
    pub bits: u64,
}

/// A JSON value. Object members keep their source order; keys are unique.
#[derive(Debug, PartialEq)]
pub enum JsonValue {
    Null,
    Bool(bool),
    Integer(i64),
    Number(Binary64),
    String(String),
    Array(Vec<JsonValue>),
    Object(Vec<(String, JsonValue)>),
}

/// The mathematical content of a JSON value.
pub enum JsonData {
    Null,
    Bool(bool),
    Integer(i64),
    Number(u64),
    Text(Seq<char>),
    Array(Seq<JsonData>),
    Object(Seq<(Seq<char>, JsonData)>),
}

impl JsonValue {
    /// The content of the value, independent of its representation.
    pub open spec fn data(self) -> JsonData
        decreases self,
    {
        match self {
            JsonValue::Null => JsonData::Null,
            JsonValue::Bool(b) => JsonData::Bool(b),
            JsonValue::Integer(i) => JsonData::Integer(i),
            JsonValue::Number(n) => JsonData::Number(n.bits),
            JsonValue::String(s) => JsonData::Text(s@),
            JsonValue::Array(v) => JsonData::Array(
                Seq::new(v.len() as nat, |i: int| if 0 <= i < v.len() { v[i].data() } else { JsonData::Null }),
            ),
            JsonValue::Object(m) => JsonData::Object(
                Seq::new(
                    m.len() as nat,
                    |i: int| if 0 <= i < m.len() { (m[i].0@, m[i].1.data()) } else { (Seq::empty(), JsonData::Null) },
                ),
            ),
        }
    }
}

impl View for JsonValue {
    type V = JsonData;

    open spec fn view(&self) -> JsonData {
        self.data()
    }
}

/// The members of an object, as data.
pub open spec fn object_data(members: Vec<(String, JsonValue)>) -> Seq<(Seq<char>, JsonData)> {
    JsonValue::Object(members)@->Object_0
}

/// The items of an array, as data.
pub open spec fn array_data(items: Vec<JsonValue>) -> Seq<JsonData> {
    JsonValue::Array(items)@->Array_0
}

/// The data of an optional reference.
pub open spec fn opt_data(value: Option<&JsonValue>) -> Option<JsonData> {
    match value {
        Some(v) => Some(v@),
        None => None,
    }
}

/// The text a value holds, if it is a string.
pub open spec fn data_text(d: JsonData) -> Option<Seq<char>> {
    match d {
        JsonData::Text(t) => Some(t),
        _ => None,
    }
}

/// The first member of an object with the given key.
pub open spec fn member(members: Seq<(Seq<char>, JsonData)>, key: Seq<char>) -> Option<JsonData>
    decreases members.len(),
{
    if members.len() == 0 {
        None
    } else if members[0].0 == key {
        Some(members[0].1)
    } else {
        member(members.drop_first(), key)
    }
}

/// Object keys are pairwise distinct.
pub open spec fn unique_keys(members: Seq<(Seq<char>, JsonData)>) -> bool {
    forall|i: int, j: int| 0 <= i < j < members.len() ==> #[trigger] members[i].0 != #[trigger] members[j].0
}

/// One reference-token step: an object member, or an array element at a canonical index.
pub open spec fn step(value: JsonData, key: Seq<char>, index: Option<usize>) -> Option<JsonData> {
    match value {
        JsonData::Object(members) => member(members, key),
        JsonData::Array(items) => match index {
            Some(i) => if i < items.len() {
                Some(items[i as int])
            } else {
                None
            },
            None => None,
        },
        _ => None,
    }
}

/// The value a sequence of reference tokens designates, if any.
pub open spec fn resolve(value: JsonData, path: Seq<(Seq<char>, Option<usize>)>) -> Option<JsonData>
    decreases path.len(),
{
    if path.len() == 0 {
        Some(value)
    } else {
        match step(value, path[0].0, path[0].1) {
            Some(next) => resolve(next, path.drop_first()),
            None => None,
        }
    }
}

/// The reference tokens of a pointer as `(key, index)` pairs.
pub open spec fn pointer_path(pointer: JsonPointer) -> Seq<(Seq<char>, Option<usize>)> {
    pointer.token_seq().map_values(|t: PointerToken| (t.key_view(), t.index_view()))
}

/// Looks a key up among object members: the first member with that key.
pub fn member_get<'a>(members: &'a Vec<(String, JsonValue)>, key: &str) -> (result: Option<&'a JsonValue>)
    ensures
        match result {
            Some(v) => member(object_data(*members), key@) == Some(v@),
            None => member(object_data(*members), key@) is None,
        },
{
    let ghost all = JsonValue::Object(*members)@->Object_0;
    let mut i: usize = 0;
    assert(all.skip(0) =~= all);
    while i < members.len()
        invariant
            i <= members.len(),
            all == JsonValue::Object(*members)@->Object_0,
            all.len() == members.len(),
            member(all, key@) == member(all.skip(i as int), key@),
        decreases members.len() - i,
    {
        assert(all[i as int] == (members[i as int].0@, members[i as int].1@));
        assert(all.skip(i as int)[0] == all[i as int]);
        if crate::text::text_eq(members[i].0.as_str(), key) {
            return Some(&members[i].1);
        }
        assert(all.skip(i as int).drop_first() =~= all.skip(i + 1));
        i = i + 1;
    }
    None
}

/// Whether an object has a member with the key.
pub fn member_contains(members: &Vec<(String, JsonValue)>, key: &str) -> (result: bool)
    ensures
        result == (member(object_data(*members), key@) is Some),
{
    member_get(members, key).is_some()
}

impl JsonValue {
    /// A deep copy.
    pub fn duplicate(&self) -> (result: JsonValue)
        ensures
            result@ == self@,
        decreases self,
    {
        match self {
            JsonValue::Null => JsonValue::Null,
            JsonValue::Bool(b) => JsonValue::Bool(*b),
            JsonValue::Integer(i) => JsonValue::Integer(*i),
            JsonValue::Number(n) => JsonValue::Number(*n),
            JsonValue::String(s) => JsonValue::String(s.clone()),
            JsonValue::Array(v) => {
                let mut out: Vec<JsonValue> = Vec::new();
                let mut i: usize = 0;
                while i < v.len()
                    invariant
                        i <= v.len(),
                        out@.len() == i,
                        *self == JsonValue::Array(*v),
                        forall|k: int| 0 <= k < i ==> (#[trigger] out@[k])@ == v@[k]@,
                    decreases v.len() - i,
                {
                    proof {
                        assert(decreases_to!(*self => self->Array_0));
                        assert(decreases_to!(*v => v[i as int]));
                    }
                    out.push(v[i].duplicate());
                    i = i + 1;
                }
                let result = JsonValue::Array(out);
                assert(result@->Array_0 =~= self@->Array_0);
                result
            },
            JsonValue::Object(m) => {
                let mut out: Vec<(String, JsonValue)> = Vec::new();
                let mut i: usize = 0;
                while i < m.len()
                    invariant
                        i <= m.len(),
                        out@.len() == i,
                        *self == JsonValue::Object(*m),
                        forall|k: int| 0 <= k < i ==> (#[trigger] out@[k]).1@ == m@[k].1@ && out@[k].0@ == m@[k].0@,
                    decreases m.len() - i,
                {
                    proof {
                        assert(decreases_to!(*self => self->Object_0));
                        assert(decreases_to!(*m => m[i as int]));
                        assert(decreases_to!(m[i as int] => m[i as int].1));
                    }
                    out.push((m[i].0.clone(), m[i].1.duplicate()));
                    i = i + 1;
                }
                let result = JsonValue::Object(out);
                assert(result@->Object_0 =~= self@->Object_0);
                result
            },
        }
    }

    /// The members when the value is an object.
    pub fn object(&self) -> (result: Option<&Vec<(String, JsonValue)>>)
        ensures
            match result {
                Some(m) => *self == JsonValue::Object(*m),
                None => !(self is Object),
            },
    {
        match self {
            JsonValue::Object(m) => Some(m),
            _ => None,
        }
    }

    /// The items when the value is an array.
    pub fn array(&self) -> (result: Option<&Vec<JsonValue>>)
        ensures
            match result {
                Some(v) => *self == JsonValue::Array(*v),
                None => !(self is Array),
            },
    {
        match self {
            JsonValue::Array(v) => Some(v),
            _ => None,
        }
    }

    /// The text when the value is a string.
    pub fn string(&self) -> (result: Option<&str>)
        ensures
            match result {
                Some(s) => self@ == JsonData::Text(s@),
                None => !(self@ is Text),
            },
    {
        match self {
            JsonValue::String(s) => Some(s.as_str()),
            _ => None,
        }
    }

    /// The value a JSON Pointer designates: object members by key, array elements by
    /// canonical index.
    pub fn pointer(&self, pointer: &JsonPointer) -> (result: Option<&JsonValue>)
        ensures
            match result {
                Some(v) => resolve(self@, pointer_path(*pointer)) == Some(v@),
                None => resolve(self@, pointer_path(*pointer)) is None,
            },
    {
        let tokens = pointer.tokens();
        let ghost path = pointer_path(*pointer);
        let mut current: &JsonValue = self;
        let mut k: usize = 0;
        assert(path.skip(0) =~= path);
        while k < tokens.len()
            invariant
                tokens@ == pointer.token_seq(),
                path == pointer_path(*pointer),
                k <= tokens.len(),
                resolve(self@, path) == resolve(current@, path.skip(k as int)),
            decreases tokens.len() - k,
        {
            let token = &tokens[k];
            let ghost rest = path.skip(k as int);
            assert(rest[0] == (token.key_view(), token.index_view()));
            assert(rest.drop_first() =~= path.skip(k + 1));
            match current {
                JsonValue::Object(members) => {
                    match member_get(members, token.key()) {
                        Some(next) => {
                            current = next;
                        },
                        None => {
                            return None;
                        },
                    }
                },
                JsonValue::Array(items) => {
                    match token.index() {
                        Some(i) => {
                            if i < items.len() {
                                current = &items[i];
                            } else {
                                return None;
                            }
                        },
                        None => {
                            return None;
                        },
                    }
                },
                _ => {
                    return None;
                },
            }
            k = k + 1;
        }
        Some(current)
    }
}

impl Clone for JsonValue {
    fn clone(&self) -> (result: Self)
        ensures
            result@ == self@,
    {
        self.duplicate()
    }
}

impl JsonValue {
    /// Every number in the value is finite.
    pub open spec fn wf(self) -> bool {
        data_wf(self@)
    }
}

/// Every number in the data is a finite binary64.
pub open spec fn data_wf(d: JsonData) -> bool
    decreases d,
{
    match d {
        JsonData::Number(bits) => crate::graph::numbers::is_finite(bits),
        JsonData::Array(items) => forall|i: int| 0 <= i < items.len() ==> data_wf(#[trigger] items[i]),
        JsonData::Object(members) => forall|i: int| 0 <= i < members.len() ==> data_wf(#[trigger] members[i].1),
        _ => true,
    }
}

} // verus!

verus! {

/// Equality of JSON values: numbers of one kind by value (so `0.0` equals `-0.0`), integers
/// and floats never equal, arrays element by element, objects as key-to-value maps whatever
/// their member order.
pub open spec fn data_eq(a: JsonData, b: JsonData) -> bool
    decreases a,
{
    match a {
        JsonData::Null => b is Null,
        JsonData::Bool(x) => b == JsonData::Bool(x),
        JsonData::Integer(x) => b == JsonData::Integer(x),
        JsonData::Number(x) => match b {
            JsonData::Number(y) => crate::graph::numbers::scaled_float(x) == crate::graph::numbers::scaled_float(y),
            _ => false,
        },
        JsonData::Text(x) => b == JsonData::Text(x),
        JsonData::Array(xs) => match b {
            JsonData::Array(ys) => xs.len() == ys.len() && forall|i: int| 0 <= i < xs.len() ==> data_eq(#[trigger] xs[i], ys[i]),
            _ => false,
        },
        JsonData::Object(xs) => match b {
            JsonData::Object(ys) => xs.len() == ys.len() && forall|i: int| 0 <= i < xs.len() ==> match member(ys, #[trigger] xs[i].0) {
                Some(v) => data_eq(xs[i].1, v),
                None => false,
            },
            _ => false,
        },
    }
}

impl JsonValue {
    /// Whether two values are equal as `data_eq` says.
    pub fn equals(&self, other: &JsonValue) -> (result: bool)
        requires
            self.wf(),
            other.wf(),
        ensures
            result == data_eq(self@, other@),
        decreases self,
    {
        match self {
            JsonValue::Null => other.is_null_value(),
            JsonValue::Bool(x) => match other {
                JsonValue::Bool(y) => *x == *y,
                _ => false,
            },
            JsonValue::Integer(x) => match other {
                JsonValue::Integer(y) => *x == *y,
                _ => false,
            },
            JsonValue::Number(x) => match other {
                JsonValue::Number(y) => crate::graph::numbers::compare_floats(*x, *y) == 0,
                _ => false,
            },
            JsonValue::String(x) => match other {
                JsonValue::String(y) => crate::text::text_eq(x.as_str(), y.as_str()),
                _ => false,
            },
            JsonValue::Array(xs) => match other {
                JsonValue::Array(ys) => {
                    if xs.len() != ys.len() {
                        return false;
                    }
                    let ghost xd = self@->Array_0;
                    let ghost yd = other@->Array_0;
                    let mut i: usize = 0;
                    while i < xs.len()
                        invariant
                            i <= xs.len(),
                            xs.len() == ys.len(),
                            *self == JsonValue::Array(*xs),
                            *other == JsonValue::Array(*ys),
                            self.wf(),
                            other.wf(),
                            xd == self@->Array_0,
                            yd == other@->Array_0,
                            forall|k: int| 0 <= k < i ==> data_eq(#[trigger] xd[k], yd[k]),
                        decreases xs.len() - i,
                    {
                        proof {
                            assert(decreases_to!(*self => self->Array_0));
                            assert(decreases_to!(*xs => xs[i as int]));
                        }
                        assert(xd[i as int] == xs[i as int]@ && yd[i as int] == ys[i as int]@);
                        assert(data_wf(xd[i as int]) && data_wf(yd[i as int]));
                        if !xs[i].equals(&ys[i]) {
                            return false;
                        }
                        i = i + 1;
                    }
                    true
                },
                _ => false,
            },
            JsonValue::Object(xs) => match other {
                JsonValue::Object(ys) => {
                    if xs.len() != ys.len() {
                        return false;
                    }
                    let ghost xd = self@->Object_0;
                    let ghost yd = other@->Object_0;
                    assert(yd == object_data(*ys));
                    let mut i: usize = 0;
                    while i < xs.len()
                        invariant
                            i <= xs.len(),
                            xs.len() == ys.len(),
                            *self == JsonValue::Object(*xs),
                            *other == JsonValue::Object(*ys),
                            self.wf(),
                            other.wf(),
                            xd == self@->Object_0,
                            yd == other@->Object_0,
                            yd == object_data(*ys),
                            forall|k: int| 0 <= k < i ==> match member(yd, #[trigger] xd[k].0) {
                                Some(v) => data_eq(xd[k].1, v),
                                None => false,
                            },
                        decreases xs.len() - i,
                    {
                        proof {
                            assert(decreases_to!(*self => self->Object_0));
                            assert(decreases_to!(*xs => xs[i as int]));
                            assert(decreases_to!(xs[i as int] => xs[i as int].1));
                        }
                        assert(xd[i as int] == (xs[i as int].0@, xs[i as int].1@));
                        assert(data_wf(xd[i as int].1));
                        match member_get(ys, xs[i].0.as_str()) {
                            Some(w) => {
                                proof {
                                    lemma_member_data_wf(yd, xd[i as int].0);
                                }
                                if !xs[i].1.equals(w) {
                                    return false;
                                }
                            },
                            None => {
                                return false;
                            },
                        }
                        i = i + 1;
                    }
                    true
                },
                _ => false,
            },
        }
    }

    fn is_null_value(&self) -> (result: bool)
        ensures
            result == (self@ is Null),
    {
        match self {
            JsonValue::Null => true,
            _ => false,
        }
    }
}

/// A member of well-formed object data is well formed.
pub proof fn lemma_member_data_wf(members: Seq<(Seq<char>, JsonData)>, key: Seq<char>)
    requires
        forall|i: int| 0 <= i < members.len() ==> data_wf(#[trigger] members[i].1),
    ensures
        match member(members, key) {
            Some(v) => data_wf(v),
            None => true,
        },
    decreases members.len(),
{
    if members.len() > 0 && members[0].0 != key {
        assert forall|i: int| 0 <= i < members.drop_first().len() implies data_wf(#[trigger] members.drop_first()[i].1) by {
            assert(members.drop_first()[i] == members[i + 1]);
        }
        lemma_member_data_wf(members.drop_first(), key);
    }
}

} // verus!
