//! The JSON value tree.

use crate::keys::{distinct, is_arrangement, key_precedes, lemma_key_less_total};
use crate::number::{Float, FloatText};
use crate::text::printable_text;
use vstd::prelude::*;

verus! {

/// A JSON document as a mathematical value. An integer and a floating-point
/// number are different values even where they are equal as numbers. An
/// object is the sequence of its members as they were put in.
pub enum Json {
    Null,
    Bool(bool),
    Integer(int),
    Float(FloatText),
    Str(Seq<char>),
    Array(Seq<Json>),
    Object(Seq<(Seq<char>, Json)>),
}

/// A JSON document.
#[derive(Debug, PartialEq)]
pub enum Value {
    Null,
    Bool(bool),
    Integer(i128),
    Float(Float),
    Str(String),
    Array(Vec<Value>),
    /// The members of an object, each a key and its value.
    Object(Vec<(String, Value)>),
}

impl View for Value {
    type V = Json;

    open spec fn view(&self) -> Json
        decreases self,
    {
        match self {
            Value::Null => Json::Null,
            Value::Bool(b) => Json::Bool(*b),
            Value::Integer(n) => Json::Integer(*n as int),
            Value::Float(f) => Json::Float(f@),
            Value::Str(s) => Json::Str(s@),
            Value::Array(items) => Json::Array(item_views(items@)),
            Value::Object(members) => Json::Object(member_views(members@)),
        }
    }
}

/// The mathematical values of the elements of an array.
pub open spec fn item_views(items: Seq<Value>) -> Seq<Json>
    decreases items,
{
    Seq::new(
        items.len(),
        |i: int|
            if 0 <= i < items.len() {
                items[i].view()
            } else {
                Json::Null
            },
    )
}

/// The mathematical values of the members of an object.
pub open spec fn member_views(members: Seq<(String, Value)>) -> Seq<(Seq<char>, Json)>
    decreases members,
{
    Seq::new(
        members.len(),
        |i: int|
            if 0 <= i < members.len() {
                (members[i].0@, members[i].1.view())
            } else {
                (Seq::empty(), Json::Null)
            },
    )
}

/// The keys of the members of an object.
pub open spec fn member_keys(members: Seq<(Seq<char>, Json)>) -> Seq<Seq<char>> {
    Seq::new(members.len(), |i: int| members[i].0)
}

/// Whether no object anywhere in the document has two members with the
/// same key.
pub open spec fn unique_keys(j: Json) -> bool
    decreases j,
{
    match j {
        Json::Array(items) => forall|i: int|
            0 <= i < items.len() ==> unique_keys(#[trigger] items[i]),
        Json::Object(members) => distinct(member_keys(members)) && forall|i: int|
            0 <= i < members.len() ==> unique_keys((#[trigger] members[i]).1),
        _ => true,
    }
}

/// Whether the scientific notation of every finite floating-point number
/// in the document holds printable ASCII only.
pub open spec fn printable_floats(j: Json) -> bool
    decreases j,
{
    match j {
        Json::Float(FloatText::Finite(text)) => printable_text(text),
        Json::Array(items) => forall|i: int|
            0 <= i < items.len() ==> printable_floats(#[trigger] items[i]),
        Json::Object(members) => forall|i: int|
            0 <= i < members.len() ==> printable_floats((#[trigger] members[i]).1),
        _ => true,
    }
}

/// Whether two documents mean the same: they are equal but for the order
/// in which the members of their objects were put in. An integer and a
/// floating-point number never mean the same.
pub open spec fn same_document(a: Json, b: Json) -> bool
    decreases a,
{
    match a {
        Json::Array(x) => b is Array && x.len() == b->Array_0.len() && forall|i: int|
            0 <= i < x.len() ==> same_document(#[trigger] x[i], b->Array_0[i]),
        Json::Object(x) => b is Object && x.len() == b->Object_0.len() && exists|
            shuffle: Seq<int>,
        |
            is_arrangement(shuffle, x.len() as int) && same_members(x, b->Object_0, shuffle),
        _ => a == b,
    }
}

/// Whether each member of `y` means the same as the member of `x` at the
/// position that `shuffle` gives for it.
pub open spec fn same_members(
    x: Seq<(Seq<char>, Json)>,
    y: Seq<(Seq<char>, Json)>,
    shuffle: Seq<int>,
) -> bool
    decreases x,
{
    forall|i: int|
        0 <= i < y.len() && 0 <= #[trigger] shuffle[i] < x.len() ==> y[i].0 == x[shuffle[i]].0
            && same_document(x[shuffle[i]].1, y[i].1)
}

/// Where no object of an array has two members with the same key, none of
/// any of its elements has.
proof fn lemma_unique_keys_item(items: Seq<Json>, i: int)
    requires
        unique_keys(Json::Array(items)),
        0 <= i < items.len(),
    ensures
        unique_keys(items[i]),
{
    let whole = Json::Array(items);
    assert(whole->Array_0 == items);
    assert(unique_keys(whole));
    assert(unique_keys(whole->Array_0[i]));
}

/// Whether no two of `members` have the same key.
fn distinct_members(members: &Vec<(String, Value)>) -> (r: bool)
    ensures
        r == distinct(member_keys(member_views(members@))),
{
    let ghost keys = member_keys(member_views(members@));
    let mut j: usize = 0;
    while j < members.len()
        invariant
            j <= members.len(),
            keys == member_keys(member_views(members@)),
            forall|a: int, b: int| 0 <= a < b < j ==> keys[a] != keys[b],
        decreases members.len() - j,
    {
        let mut i: usize = 0;
        while i < j
            invariant
                i <= j < members.len(),
                keys == member_keys(member_views(members@)),
                forall|a: int| 0 <= a < i ==> keys[a] != keys[j as int],
            decreases j - i,
        {
            let first = members[i].0.as_str();
            let second = members[j].0.as_str();
            if !key_precedes(first, second) && !key_precedes(second, first) {
                proof {
                    lemma_key_less_total(first@, second@, first@);
                    assert(keys[i as int] == keys[j as int]);
                }
                return false;
            }
            proof {
                lemma_key_less_total(first@, first@, first@);
            }
            i += 1;
        }
        j += 1;
    }
    true
}

impl Value {
    /// Whether no object anywhere in the document has two members with the
    /// same key.
    pub fn has_unique_keys(&self) -> (r: bool)
        ensures
            r == unique_keys(self@),
        decreases self,
    {
        match self {
            Value::Array(items) => {
                let mut i: usize = 0;
                while i < items.len()
                    invariant
                        i <= items.len(),
                        *self == Value::Array(*items),
                        forall|j: int| 0 <= j < i ==> unique_keys(#[trigger] item_views(items@)[j]),
                    decreases items.len() - i,
                {
                    proof {
                        assert(decreases_to!(*self => self->Array_0));
                        assert(decreases_to!(*items => items[i as int]));
                    }
                    if !items[i].has_unique_keys() {
                        proof {
                            let views = item_views(items@);
                            assert(self@ == Json::Array(views));
                            assert(views[i as int] == items[i as int]@);
                            assert(!unique_keys(views[i as int]));
                            if unique_keys(Json::Array(views)) {
                                lemma_unique_keys_item(views, i as int);
                            }
                        }
                        return false;
                    }
                    proof {
                        assert(item_views(items@)[i as int] == items[i as int]@);
                    }
                    i += 1;
                }
                proof {
                    let views = item_views(items@);
                    assert(self@ == Json::Array(views));
                    assert(forall|j: int| 0 <= j < views.len() ==> unique_keys(#[trigger] views[j]));
                }
                true
            },
            Value::Object(members) => {
                if !distinct_members(members) {
                    return false;
                }
                let mut i: usize = 0;
                while i < members.len()
                    invariant
                        i <= members.len(),
                        *self == Value::Object(*members),
                        forall|j: int|
                            0 <= j < i ==> unique_keys((#[trigger] member_views(members@)[j]).1),
                    decreases members.len() - i,
                {
                    proof {
                        assert(decreases_to!(*self => self->Object_0));
                        assert(decreases_to!(*members => members[i as int]));
                        assert(decreases_to!(members[i as int] => members[i as int].1));
                    }
                    if !members[i].1.has_unique_keys() {
                        assert(!unique_keys(member_views(members@)[i as int].1));
                        return false;
                    }
                    i += 1;
                }
                true
            },
            _ => true,
        }
    }
}

} // verus!
