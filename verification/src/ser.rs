//! The canonical text of a JSON document.

use crate::escape::{quoted, write_string};
use crate::keys::{
    is_arrangement, key_texts, lemma_sorted_order, positions, sort_keys, sorted_order,
};
use crate::laws::lemma_canonical_printable;
use crate::number::{
    float_text, int_text, lemma_scientific_printable, null_text, write_float, write_integer,
    write_null,
};
use crate::text::printable_text;
use crate::value::{item_views, member_keys, member_views, printable_floats, Json, Value};
use vstd::prelude::*;

verus! {

/// How writing a canonical text can fail.
#[derive(Clone, Copy, Debug, PartialEq, Eq)]
pub enum CanonicalJSONError {
    /// The sink that takes the text refused a write.
    WriteFailure,
}

/// The text `true`.
pub open spec fn true_text() -> Seq<char> {
    seq!['t', 'r', 'u', 'e']
}

/// The text `false`.
pub open spec fn false_text() -> Seq<char> {
    seq!['f', 'a', 'l', 's', 'e']
}

/// The texts `parts` in a row, with a comma between each two.
pub open spec fn joined(parts: Seq<Seq<char>>) -> Seq<char>
    decreases parts.len(),
{
    if parts.len() == 0 {
        Seq::empty()
    } else if parts.len() == 1 {
        parts[0]
    } else {
        joined(parts.drop_last()) + seq![','] + parts.last()
    }
}

/// The texts `parts` taken in the order of the positions `order`.
pub open spec fn arranged(parts: Seq<Seq<char>>, order: Seq<int>) -> Seq<Seq<char>> {
    Seq::new(order.len(), |p: int| parts[order[p]])
}

/// The canonical text of each element of an array.
pub open spec fn item_texts(items: Seq<Json>) -> Seq<Seq<char>>
    decreases items,
{
    Seq::new(
        items.len(),
        |i: int|
            if 0 <= i < items.len() {
                canonical(items[i])
            } else {
                Seq::empty()
            },
    )
}

/// The canonical text of each member of an object: the key as a string, a
/// colon, the canonical text of the value.
pub open spec fn member_texts(members: Seq<(Seq<char>, Json)>) -> Seq<Seq<char>>
    decreases members,
{
    Seq::new(
        members.len(),
        |i: int|
            if 0 <= i < members.len() {
                quoted(members[i].0) + seq![':'] + canonical(members[i].1)
            } else {
                Seq::empty()
            },
    )
}

/// The canonical text of a JSON document. An array holds its elements in
/// their own order. An object holds its members in the ascending order of
/// their keys. No character stands between the parts but the commas and
/// colons that JSON asks for.
pub open spec fn canonical(j: Json) -> Seq<char>
    decreases j,
{
    match j {
        Json::Null => null_text(),
        Json::Bool(b) => if b {
            true_text()
        } else {
            false_text()
        },
        Json::Integer(n) => int_text(n),
        Json::Float(f) => float_text(f),
        Json::Str(s) => quoted(s),
        Json::Array(items) => seq!['['] + joined(item_texts(items)) + seq![']'],
        Json::Object(members) => seq!['{'] + joined(
            arranged(member_texts(members), sorted_order(member_keys(members))),
        ) + seq!['}'],
    }
}

/// Appends `true` or `false` to `writer`.
pub fn write_bool(writer: &mut String, value: bool)
    ensures
        final(writer)@ == old(writer)@ + (if value {
            true_text()
        } else {
            false_text()
        }),
{
    if value {
        writer.push('t');
        writer.push('r');
        writer.push('u');
        writer.push('e');
        assert(writer@ =~= old(writer)@ + true_text());
    } else {
        writer.push('f');
        writer.push('a');
        writer.push('l');
        writer.push('s');
        writer.push('e');
        assert(writer@ =~= old(writer)@ + false_text());
    }
}

/// Appends the canonical text of `value` to `writer`.
pub fn write_value(writer: &mut String, value: &Value)
    ensures
        final(writer)@ == old(writer)@ + canonical(value@),
        printable_floats(value@),
    decreases value,
{
    match value {
        Value::Null => write_null(writer),
        Value::Bool(b) => write_bool(writer, *b),
        Value::Integer(n) => write_integer(writer, *n),
        Value::Float(f) => {
            write_float(writer, f);
            proof {
                if f@ is Finite {
                    lemma_scientific_printable(f@->Finite_0);
                }
            }
        },
        Value::Str(s) => write_string(writer, s.as_str()),
        Value::Array(items) => {
            proof {
                assert(decreases_to!(*value => value->Array_0));
            }
            write_array(writer, items)
        },
        Value::Object(members) => {
            proof {
                assert(decreases_to!(*value => value->Object_0));
            }
            write_object(writer, members)
        },
    }
}

/// Appends the canonical text of the array of `items` to `writer`.
pub fn write_array(writer: &mut String, items: &Vec<Value>)
    ensures
        final(writer)@ == old(writer)@ + canonical(Json::Array(item_views(items@))),
        printable_floats(Json::Array(item_views(items@))),
    decreases items,
{
    let ghost texts = item_texts(item_views(items@));
    writer.push('[');
    let ghost opened = writer@;
    let mut i: usize = 0;
    assert(opened + joined(texts.take(0)) =~= opened);
    while i < items.len()
        invariant
            i <= items.len(),
            texts == item_texts(item_views(items@)),
            writer@ == opened + joined(texts.take(i as int)),
            forall|j: int| 0 <= j < i ==> printable_floats(#[trigger] item_views(items@)[j]),
        decreases items.len() - i,
    {
        let ghost before = writer@;
        if i > 0 {
            writer.push(',');
        }
        proof {
            assert(decreases_to!(*items => items[i as int]));
        }
        write_value(writer, &items[i]);
        proof {
            let done = texts.take(i + 1);
            assert(done.drop_last() =~= texts.take(i as int));
            assert(done.last() == canonical(items[i as int]@));
            assert(writer@ =~= opened + joined(done));
        }
        i += 1;
    }
    writer.push(']');
    proof {
        let whole = Json::Array(item_views(items@));
        assert(whole->Array_0 == item_views(items@));
        assert(texts.take(items.len() as int) =~= texts);
        assert(writer@ =~= old(writer)@ + canonical(whole));
    }
}

/// Appends the canonical text of the object of `members` to `writer`.
pub fn write_object(writer: &mut String, members: &Vec<(String, Value)>)
    ensures
        final(writer)@ == old(writer)@ + canonical(Json::Object(member_views(members@))),
        printable_floats(Json::Object(member_views(members@))),
    decreases members,
{
    let ghost views = member_views(members@);
    let mut keys: Vec<&str> = Vec::new();
    let mut i: usize = 0;
    while i < members.len()
        invariant
            i <= members.len(),
            keys@.len() == i,
            forall|j: int| 0 <= j < i ==> (#[trigger] keys@[j])@ == members@[j].0@,
        decreases members.len() - i,
    {
        keys.push(members[i].0.as_str());
        i += 1;
    }
    let order = sort_keys(&keys);
    let ghost texts = arranged(member_texts(views), sorted_order(member_keys(views)));
    proof {
        assert(key_texts(keys@) =~= member_keys(views));
        lemma_sorted_order(member_keys(views));
        assert(order@.len() == positions(order@).len());
    }
    writer.push('{');
    let ghost opened = writer@;
    let mut p: usize = 0;
    assert(opened + joined(texts.take(0)) =~= opened);
    while p < order.len()
        invariant
            p <= order.len(),
            order@.len() == members@.len(),
            views == member_views(members@),
            positions(order@) == sorted_order(member_keys(views)),
            is_arrangement(positions(order@), members@.len() as int),
            texts == arranged(member_texts(views), sorted_order(member_keys(views))),
            writer@ == opened + joined(texts.take(p as int)),
            forall|q: int|
                0 <= q < p ==> printable_floats(views[#[trigger] positions(order@)[q]].1),
        decreases order.len() - p,
    {
        if p > 0 {
            writer.push(',');
        }
        let at = order[p];
        proof {
            assert(positions(order@)[p as int] == at);
            assert(decreases_to!(*members => members[at as int]));
            assert(decreases_to!(members[at as int] => members[at as int].1));
        }
        write_string(writer, members[at].0.as_str());
        writer.push(':');
        write_value(writer, &members[at].1);
        proof {
            let done = texts.take(p + 1);
            assert(done.drop_last() =~= texts.take(p as int));
            assert(done.last() == member_texts(views)[at as int]);
            assert(writer@ =~= opened + joined(done));
        }
        p += 1;
    }
    writer.push('}');
    proof {
        let whole = Json::Object(views);
        assert(whole->Object_0 == views);
        assert(texts.take(order.len() as int) =~= texts);
        assert(writer@ =~= old(writer)@ + canonical(whole));
        assert forall|i: int| 0 <= i < views.len() implies printable_floats(
            (#[trigger] views[i]).1,
        ) by {
            assert(positions(order@).contains(i));
            let q = choose|q: int| 0 <= q < positions(order@).len() && positions(order@)[q] == i;
            assert(printable_floats(views[positions(order@)[q]].1));
        }
    }
}

/// The canonical text of `input`: printable ASCII only. The text is built
/// in memory, so this never fails.
pub fn to_string(input: &Value) -> (result: Result<String, CanonicalJSONError>)
    ensures
        result is Ok,
        result->Ok_0@ == canonical(input@),
        printable_text(result->Ok_0@),
{
    let mut serialized_string = String::new();
    write_value(&mut serialized_string, input);
    proof {
        lemma_canonical_printable(input@);
    }
    Ok(serialized_string)
}

/// Hands the canonical text of `input` to the sink `write`, once, and
/// reports a failure if the sink says that it did not take the text.
pub fn to_writer<W: FnOnce(String) -> bool>(input: &Value, write: W) -> (result: Result<
    (),
    CanonicalJSONError,
>)
    requires
        forall|text: String| text@ == canonical(input@) ==> call_requires(write, (text,)),
    ensures
        exists|text: String, accepted: bool|
            {
                &&& text@ == canonical(input@)
                &&& #[trigger] call_ensures(write, (text,), accepted)
                &&& result == if accepted {
                    Ok::<(), CanonicalJSONError>(())
                } else {
                    Err::<(), CanonicalJSONError>(CanonicalJSONError::WriteFailure)
                }
            },
{
    let mut serialized_string = String::new();
    write_value(&mut serialized_string, input);
    let ghost text = serialized_string;
    let accepted = write(serialized_string);
    assert(call_ensures(write, (text,), accepted));
    if accepted {
        Ok(())
    } else {
        Err(CanonicalJSONError::WriteFailure)
    }
}

} // verus!
