//! What holds of every canonical text.

use crate::escape::{canonical_string, lemma_canonical_string_printable, quoted};
use crate::keys::{
    distinct, is_arrangement, key_less, lemma_ascending_unique, lemma_key_less_total,
    lemma_sorted_order, sorted_order, strictly_ascending,
};
use crate::number::{lemma_int_text_printable, lemma_scan_number_printable, FloatText};
use crate::ser::{arranged, canonical, item_texts, joined, member_texts};
use crate::text::{is_printable, printable_text};
use crate::value::{
    member_keys, printable_floats, same_document, same_members, unique_keys, Json,
};
use vstd::prelude::*;

verus! {

/// The members `members` taken in the order of the positions `order`.
pub open spec fn rearranged(members: Seq<(Seq<char>, Json)>, order: Seq<int>) -> Seq<
    (Seq<char>, Json),
> {
    Seq::new(order.len(), |i: int| members[order[i]])
}

/// The text of an array holds the texts of its elements in the order of
/// the elements.
pub proof fn lemma_array_order(items: Seq<Json>)
    ensures
        canonical(Json::Array(items)) == seq!['['] + joined(item_texts(items)) + seq![']'],
        item_texts(items).len() == items.len(),
        forall|i: int|
            0 <= i < items.len() ==> #[trigger] item_texts(items)[i] == canonical(items[i]),
{
}

/// Texts that are joined in two groups are joined as a whole.
pub proof fn lemma_joined_concat(a: Seq<Seq<char>>, b: Seq<Seq<char>>)
    requires
        a.len() > 0,
        b.len() > 0,
    ensures
        joined(a + b) == joined(a) + seq![','] + joined(b),
    decreases b.len(),
{
    let whole = a + b;
    if b.len() == 1 {
        assert(whole.drop_last() =~= a);
    } else {
        assert(whole.drop_last() =~= a + b.drop_last());
        lemma_joined_concat(a, b.drop_last());
        assert(joined(a) + seq![','] + joined(b.drop_last()) + seq![','] + b.last() =~= joined(a)
            + seq![','] + (joined(b.drop_last()) + seq![','] + b.last()));
    }
}

/// The text of an array made of two arrays in a row is the elements of
/// the first, a comma, and the elements of the second: an array keeps the
/// order of its elements.
pub proof fn lemma_array_concat(a: Seq<Json>, b: Seq<Json>)
    requires
        a.len() > 0,
        b.len() > 0,
    ensures
        canonical(Json::Array(a + b)) == seq!['['] + joined(item_texts(a)) + seq![','] + joined(
            item_texts(b),
        ) + seq![']'],
{
    assert(item_texts(a + b) =~= item_texts(a) + item_texts(b));
    lemma_joined_concat(item_texts(a), item_texts(b));
    assert(seq!['['] + (joined(item_texts(a)) + seq![','] + joined(item_texts(b))) + seq![']']
        =~= seq!['['] + joined(item_texts(a)) + seq![','] + joined(item_texts(b)) + seq![']']);
}

/// The text of an object holds its members in the order `sorted_order` of
/// their keys, which names every member once. The keys of the members so
/// written never descend; where no two members have the same key, each key
/// stands before the next.
pub proof fn lemma_object_order(members: Seq<(Seq<char>, Json)>)
    ensures
        ({
            let order = sorted_order(member_keys(members));
            let texts = arranged(member_texts(members), order);
            &&& canonical(Json::Object(members)) == seq!['{'] + joined(texts) + seq!['}']
            &&& is_arrangement(order, members.len() as int)
            &&& texts.len() == members.len()
            &&& forall|p: int|
                0 <= p < members.len() ==> #[trigger] texts[p] == quoted(members[order[p]].0)
                    + seq![':'] + canonical(members[order[p]].1)
            &&& forall|p: int, q: int|
                0 <= p < q < members.len() ==> !key_less(
                    members[#[trigger] order[q]].0,
                    members[#[trigger] order[p]].0,
                )
            &&& distinct(member_keys(members)) ==> forall|p: int, q: int|
                0 <= p < q < members.len() ==> key_less(
                    members[#[trigger] order[p]].0,
                    members[#[trigger] order[q]].0,
                )
        }),
{
    let keys = member_keys(members);
    let order = sorted_order(keys);
    lemma_sorted_order(keys);
    assert forall|p: int, q: int| 0 <= p < q < members.len() implies !key_less(
        members[#[trigger] order[q]].0,
        members[#[trigger] order[p]].0,
    ) by {
        lemma_key_less_total(keys[order[p]], keys[order[q]], keys[order[p]]);
    }
    if distinct(keys) {
        assert forall|p: int, q: int| 0 <= p < q < members.len() implies key_less(
            members[#[trigger] order[p]].0,
            members[#[trigger] order[q]].0,
        ) by {
            assert(key_less(keys[order[p]], keys[order[q]]));
        }
    }
}

/// The order in which the members of an object were put in does not show
/// in its text: where no two members have the same key, the members taken
/// in any other order `shuffle` give the same text.
pub proof fn lemma_member_order_irrelevant(members: Seq<(Seq<char>, Json)>, shuffle: Seq<int>)
    requires
        distinct(member_keys(members)),
        is_arrangement(shuffle, members.len() as int),
    ensures
        canonical(Json::Object(rearranged(members, shuffle))) == canonical(Json::Object(members)),
{
    let n = members.len() as int;
    let keys = member_keys(members);
    let order = sorted_order(keys);
    let other = rearranged(members, shuffle);
    let other_keys = member_keys(other);
    let other_order = sorted_order(other_keys);
    lemma_sorted_order(keys);
    assert(distinct(other_keys)) by {
        assert forall|i: int, j: int| 0 <= i < j < other_keys.len() implies other_keys[i]
            != other_keys[j] by {
            let a = shuffle[i];
            let b = shuffle[j];
            assert(a != b);
            assert(other_keys[i] == keys[a] && other_keys[j] == keys[b]);
            if a < b {
                assert(keys[a] != keys[b]);
            } else {
                assert(keys[b] != keys[a]);
            }
        }
    }
    lemma_sorted_order(other_keys);
    // the positions in `members` of the members of `other`, in the order of their keys
    let back = Seq::new(n as nat, |p: int| shuffle[other_order[p]]);
    assert(strictly_ascending(keys, back)) by {
        assert forall|p: int, q: int| 0 <= p < q < back.len() implies key_less(
            keys[#[trigger] back[p]],
            keys[#[trigger] back[q]],
        ) by {
            assert(key_less(other_keys[other_order[p]], other_keys[other_order[q]]));
        }
    }
    assert forall|i: int| order.contains(i) <==> back.contains(i) by {
        if order.contains(i) {
            assert(0 <= i < n);
            assert(shuffle.contains(i));
            let j = choose|j: int| 0 <= j < shuffle.len() && shuffle[j] == i;
            assert(other_order.contains(j));
            let p = choose|p: int| 0 <= p < other_order.len() && other_order[p] == j;
            assert(back[p] == i);
        }
        if back.contains(i) {
            let p = choose|p: int| 0 <= p < back.len() && back[p] == i;
            assert(0 <= other_order[p] < n);
            assert(0 <= i < n);
        }
    }
    lemma_ascending_unique(keys, order, back);
    assert(arranged(member_texts(other), other_order) =~= arranged(member_texts(members), order))
        by {
        assert forall|p: int| 0 <= p < n implies #[trigger] arranged(
            member_texts(other),
            other_order,
        )[p] == arranged(member_texts(members), order)[p] by {
            assert(other[other_order[p]] == members[back[p]]);
        }
    }
}

/// Two documents that mean the same have the same canonical text, where no
/// object has two members with the same key.
pub proof fn lemma_same_document(a: Json, b: Json)
    requires
        unique_keys(a),
        same_document(a, b),
    ensures
        canonical(a) == canonical(b),
    decreases a,
{
    match a {
        Json::Array(x) => {
            let y = b->Array_0;
            assert(item_texts(x) =~= item_texts(y)) by {
                assert forall|i: int| 0 <= i < x.len() implies #[trigger] item_texts(x)[i]
                    == item_texts(y)[i] by {
                    assert(same_document(x[i], y[i]));
                    assert(unique_keys(x[i]));
                    lemma_same_document(x[i], y[i]);
                }
            }
        },
        Json::Object(x) => {
            let y = b->Object_0;
            let shuffle = choose|shuffle: Seq<int>|
                is_arrangement(shuffle, x.len() as int) && same_members(x, y, shuffle);
            let between = rearranged(x, shuffle);
            lemma_member_order_irrelevant(x, shuffle);
            assert(member_keys(between) =~= member_keys(y)) by {
                assert forall|i: int| 0 <= i < y.len() implies #[trigger] member_keys(between)[i]
                    == member_keys(y)[i] by {
                    assert(0 <= shuffle[i] < x.len());
                }
            }
            assert(member_texts(between) =~= member_texts(y)) by {
                assert forall|i: int| 0 <= i < y.len() implies #[trigger] member_texts(
                    between,
                )[i] == member_texts(y)[i] by {
                    let at = shuffle[i];
                    assert(0 <= at < x.len());
                    assert(unique_keys(x[at].1));
                    assert(same_document(x[at].1, y[i].1));
                    lemma_same_document(x[at].1, y[i].1);
                }
            }
        },
        _ => {},
    }
}

/// A string between its quotation marks holds printable ASCII only.
proof fn lemma_quoted_printable(s: Seq<char>)
    ensures
        printable_text(quoted(s)),
{
    lemma_canonical_string_printable(s);
    let inner = canonical_string(s);
    assert forall|i: int| 0 <= i < quoted(s).len() implies is_printable(#[trigger] quoted(s)[i]) by {
        if 0 < i <= inner.len() {
            assert(quoted(s)[i] == inner[i - 1]);
        }
    }
}

/// Printable texts joined by commas make a printable text.
proof fn lemma_joined_printable(parts: Seq<Seq<char>>)
    requires
        forall|i: int| 0 <= i < parts.len() ==> printable_text(#[trigger] parts[i]),
    ensures
        printable_text(joined(parts)),
    decreases parts.len(),
{
    if parts.len() > 1 {
        let front = parts.drop_last();
        assert forall|i: int| 0 <= i < front.len() implies printable_text(#[trigger] front[i]) by {
            assert(front[i] == parts[i]);
        }
        lemma_joined_printable(front);
        let head = joined(front);
        let last = parts.last();
        assert(printable_text(last));
        assert forall|i: int| 0 <= i < joined(parts).len() implies is_printable(
            #[trigger] joined(parts)[i],
        ) by {
            if i < head.len() {
                assert(joined(parts)[i] == head[i]);
            } else if i > head.len() {
                assert(joined(parts)[i] == last[i - head.len() - 1]);
            }
        }
    } else if parts.len() == 1 {
        assert(printable_text(parts[0]));
    }
}

/// The canonical text of a document holds printable ASCII only: no
/// control character, no line break, nothing beyond U+007E. This asks of
/// the document only that the scientific notation of its floating-point
/// numbers holds printable ASCII.
pub proof fn lemma_canonical_printable(j: Json)
    requires
        printable_floats(j),
    ensures
        printable_text(canonical(j)),
    decreases j,
{
    match j {
        Json::Integer(n) => {
            lemma_int_text_printable(n);
        },
        Json::Float(FloatText::Finite(text)) => {
            lemma_scan_number_printable(text, false);
        },
        Json::Str(s) => {
            lemma_quoted_printable(s);
        },
        Json::Array(items) => {
            let texts = item_texts(items);
            assert forall|i: int| 0 <= i < texts.len() implies printable_text(
                #[trigger] texts[i],
            ) by {
                assert(printable_floats(items[i]));
                lemma_canonical_printable(items[i]);
            }
            lemma_joined_printable(texts);
            let inner = joined(texts);
            assert forall|i: int| 0 <= i < canonical(j).len() implies is_printable(
                #[trigger] canonical(j)[i],
            ) by {
                if 0 < i <= inner.len() {
                    assert(canonical(j)[i] == inner[i - 1]);
                }
            }
        },
        Json::Object(members) => {
            let order = sorted_order(member_keys(members));
            let texts = arranged(member_texts(members), order);
            lemma_sorted_order(member_keys(members));
            assert forall|p: int| 0 <= p < texts.len() implies printable_text(
                #[trigger] texts[p],
            ) by {
                let at = order[p];
                assert(0 <= at < members.len());
                assert(printable_floats(members[at].1));
                lemma_canonical_printable(members[at].1);
                lemma_quoted_printable(members[at].0);
                let key = quoted(members[at].0);
                let value = canonical(members[at].1);
                assert forall|i: int| 0 <= i < texts[p].len() implies is_printable(
                    #[trigger] texts[p][i],
                ) by {
                    if i < key.len() {
                        assert(texts[p][i] == key[i]);
                    } else if i > key.len() {
                        assert(texts[p][i] == value[i - key.len() - 1]);
                    }
                }
            }
            lemma_joined_printable(texts);
            let inner = joined(texts);
            assert forall|i: int| 0 <= i < canonical(j).len() implies is_printable(
                #[trigger] canonical(j)[i],
            ) by {
                if 0 < i <= inner.len() {
                    assert(canonical(j)[i] == inner[i - 1]);
                }
            }
        },
        _ => {},
    }
}

} // verus!
