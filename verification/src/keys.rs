//! The order of an object's keys: ascending by the bytes of their UTF-8
//! text, with no regard to locale.

use vstd::prelude::*;
use vstd::utf8::{decode_utf8, encode_utf8, encode_utf8_decode_utf8};

verus! {

/// Whether `a` stands before `b` when the two are compared byte by byte:
/// at the first place where they differ `a` has the smaller byte, or `a`
/// ends there and `b` goes on.
pub open spec fn bytes_less(a: Seq<u8>, b: Seq<u8>) -> bool
    decreases a.len(),
{
    if b.len() == 0 {
        false
    } else if a.len() == 0 {
        true
    } else if a[0] != b[0] {
        a[0] < b[0]
    } else {
        bytes_less(a.skip(1), b.skip(1))
    }
}

/// Whether the key `a` stands before the key `b`: by the bytes of their
/// UTF-8 text.
pub open spec fn key_less(a: Seq<char>, b: Seq<char>) -> bool {
    bytes_less(encode_utf8(a), encode_utf8(b))
}

/// The first place where two byte sequences differ decides which stands
/// first: where both agree on their first `i` bytes, the one that ends
/// there stands before the one that goes on, and else the one with the
/// smaller byte at `i` stands first.
pub proof fn lemma_bytes_less_first_difference(a: Seq<u8>, b: Seq<u8>, i: int)
    requires
        0 <= i <= a.len(),
        i <= b.len(),
        a.take(i) == b.take(i),
    ensures
        i == a.len() ==> bytes_less(a, b) == (i < b.len()),
        i == b.len() ==> !bytes_less(a, b),
        i < a.len() && i < b.len() && a[i] != b[i] ==> bytes_less(a, b) == (a[i] < b[i]),
    decreases i,
{
    if i > 0 {
        assert(a[0] == a.take(i)[0] && b[0] == b.take(i)[0]);
        assert(a.skip(1).take(i - 1) =~= a.take(i).skip(1));
        assert(b.skip(1).take(i - 1) =~= b.take(i).skip(1));
        lemma_bytes_less_first_difference(a.skip(1), b.skip(1), i - 1);
    }
}

/// No byte sequence stands before itself.
pub proof fn lemma_bytes_less_irreflexive(a: Seq<u8>)
    ensures
        !bytes_less(a, a),
    decreases a.len(),
{
    if a.len() > 0 {
        lemma_bytes_less_irreflexive(a.skip(1));
    }
}

/// If `a` stands before `b` and `b` before `c`, then `a` stands before `c`.
pub proof fn lemma_bytes_less_transitive(a: Seq<u8>, b: Seq<u8>, c: Seq<u8>)
    requires
        bytes_less(a, b),
        bytes_less(b, c),
    ensures
        bytes_less(a, c),
    decreases a.len(),
{
    if a.len() > 0 && a[0] == b[0] && b[0] == c[0] {
        lemma_bytes_less_transitive(a.skip(1), b.skip(1), c.skip(1));
    }
}

/// Of two different byte sequences one stands before the other.
pub proof fn lemma_bytes_less_connected(a: Seq<u8>, b: Seq<u8>)
    requires
        !bytes_less(a, b),
        !bytes_less(b, a),
    ensures
        a == b,
    decreases a.len(),
{
    if a.len() > 0 && b.len() > 0 {
        lemma_bytes_less_connected(a.skip(1), b.skip(1));
        assert(a =~= seq![a[0]] + a.skip(1));
        assert(b =~= seq![b[0]] + b.skip(1));
    } else {
        assert(a =~= b);
    }
}

/// The order of keys is strict and total: no key stands before itself, the
/// order is transitive, and of two different keys one stands before the
/// other.
pub proof fn lemma_key_less_total(a: Seq<char>, b: Seq<char>, c: Seq<char>)
    ensures
        !key_less(a, a),
        key_less(a, b) && key_less(b, c) ==> key_less(a, c),
        key_less(a, b) ==> !key_less(b, a),
        a != b ==> key_less(a, b) || key_less(b, a),
{
    lemma_bytes_less_irreflexive(encode_utf8(a));
    if key_less(a, b) && key_less(b, c) {
        lemma_bytes_less_transitive(encode_utf8(a), encode_utf8(b), encode_utf8(c));
    }
    if key_less(a, b) && key_less(b, a) {
        lemma_bytes_less_transitive(encode_utf8(a), encode_utf8(b), encode_utf8(a));
    }
    if !key_less(a, b) && !key_less(b, a) {
        lemma_bytes_less_connected(encode_utf8(a), encode_utf8(b));
        encode_utf8_decode_utf8(a);
        encode_utf8_decode_utf8(b);
        assert(a == decode_utf8(encode_utf8(a)));
    }
}

/// Where `key` goes into `order`, a sequence of positions in `keys` whose
/// keys ascend: behind the last position whose key does not stand after
/// `key`.
pub open spec fn insertion_point(keys: Seq<Seq<char>>, order: Seq<int>, key: Seq<char>) -> int
    decreases order.len(),
{
    if order.len() == 0 {
        0
    } else if key_less(key, keys[order.last()]) {
        insertion_point(keys, order.drop_last(), key)
    } else {
        order.len() as int
    }
}

/// The positions of the first `n` keys, in the order in which their keys
/// ascend. Each key goes in behind the keys before it that do not stand
/// after it, so equal keys keep the order in which they came.
pub open spec fn sorted_prefix(keys: Seq<Seq<char>>, n: int) -> Seq<int>
    decreases n,
{
    if n <= 0 {
        Seq::empty()
    } else {
        let before = sorted_prefix(keys, n - 1);
        before.insert(insertion_point(keys, before, keys[n - 1]), n - 1)
    }
}

/// The positions of all keys, in the order in which their keys ascend.
pub open spec fn sorted_order(keys: Seq<Seq<char>>) -> Seq<int> {
    sorted_prefix(keys, keys.len() as int)
}

/// Whether the keys at the positions `order` ascend, equal keys in the
/// order of their positions.
pub open spec fn ascending(keys: Seq<Seq<char>>, order: Seq<int>) -> bool {
    forall|p: int, q: int|
        0 <= p < q < order.len() ==> key_less(keys[#[trigger] order[p]], keys[#[trigger] order[q]])
            || (keys[order[p]] == keys[order[q]] && order[p] < order[q])
}

/// Whether no two of the keys are equal.
pub open spec fn distinct(keys: Seq<Seq<char>>) -> bool {
    forall|i: int, j: int| 0 <= i < j < keys.len() ==> keys[i] != keys[j]
}

/// Whether `order` names each of the positions `0` to `n - 1` once.
pub open spec fn is_arrangement(order: Seq<int>, n: int) -> bool {
    &&& order.len() == n
    &&& forall|p: int| 0 <= p < order.len() ==> 0 <= #[trigger] order[p] < n
    &&& forall|p: int, q: int|
        0 <= p < q < order.len() ==> #[trigger] order[p] != #[trigger] order[q]
    &&& forall|i: int| 0 <= i < n ==> #[trigger] order.contains(i)
}

proof fn lemma_insertion_point(keys: Seq<Seq<char>>, order: Seq<int>, key: Seq<char>)
    ensures
        0 <= insertion_point(keys, order, key) <= order.len(),
        forall|q: int|
            insertion_point(keys, order, key) <= q < order.len() ==> key_less(
                key,
                keys[#[trigger] order[q]],
            ),
        insertion_point(keys, order, key) > 0 ==> !key_less(
            key,
            keys[order[insertion_point(keys, order, key) - 1]],
        ),
    decreases order.len(),
{
    if order.len() > 0 && key_less(key, keys[order.last()]) {
        let front = order.drop_last();
        lemma_insertion_point(keys, front, key);
        assert forall|q: int| insertion_point(keys, order, key) <= q < order.len() implies key_less(
            key,
            keys[#[trigger] order[q]],
        ) by {
            if q < front.len() {
                assert(order[q] == front[q]);
            }
        }
        if insertion_point(keys, order, key) > 0 {
            assert(order[insertion_point(keys, order, key) - 1] == front[insertion_point(
                keys,
                front,
                key,
            ) - 1]);
        }
    }
}

/// The sorted positions of the first `n` keys name each of these positions
/// once, and their keys ascend.
pub proof fn lemma_sorted_prefix(keys: Seq<Seq<char>>, n: int)
    requires
        0 <= n <= keys.len(),
    ensures
        is_arrangement(sorted_prefix(keys, n), n),
        ascending(keys, sorted_prefix(keys, n)),
    decreases n,
{
    if n > 0 {
        let before = sorted_prefix(keys, n - 1);
        let key = keys[n - 1];
        let at = insertion_point(keys, before, key);
        let order = sorted_prefix(keys, n);
        lemma_sorted_prefix(keys, n - 1);
        lemma_insertion_point(keys, before, key);
        assert(order == before.insert(at, n - 1));
        assert forall|p: int| 0 <= p < order.len() implies 0 <= #[trigger] order[p] < n by {
            if p < at {
                assert(order[p] == before[p]);
            } else if p > at {
                assert(order[p] == before[p - 1]);
            }
        }
        assert forall|p: int, q: int| 0 <= p < q < order.len() implies #[trigger] order[p]
            != #[trigger] order[q] by {
            let bp = if p < at { p } else { p - 1 };
            let bq = if q < at { q } else { q - 1 };
            if p != at && q != at {
                assert(order[p] == before[bp]);
                assert(order[q] == before[bq]);
            } else if p == at {
                assert(order[q] == before[bq]);
            } else {
                assert(order[p] == before[bp]);
            }
        }
        assert forall|i: int| 0 <= i < n implies #[trigger] order.contains(i) by {
            if i == n - 1 {
                assert(order[at] == i);
            } else {
                assert(before.contains(i));
                let bp = choose|bp: int| 0 <= bp < before.len() && before[bp] == i;
                let p = if bp < at { bp } else { bp + 1 };
                assert(order[p] == before[bp]);
            }
        }
        assert forall|p: int, q: int| 0 <= p < q < order.len() implies key_less(
            keys[#[trigger] order[p]],
            keys[#[trigger] order[q]],
        ) || (keys[order[p]] == keys[order[q]] && order[p] < order[q]) by {
            let bp = if p < at { p } else { p - 1 };
            let bq = if q < at { q } else { q - 1 };
            if p != at && q != at {
                assert(order[p] == before[bp]);
                assert(order[q] == before[bq]);
            } else if p == at {
                assert(order[q] == before[bq]);
                assert(key_less(key, keys[before[bq]]));
            } else {
                assert(order[p] == before[bp]);
                assert(order[q] == n - 1);
                assert(0 <= before[bp] < n - 1);
                let last = before[at - 1];
                lemma_key_less_total(key, keys[last], key);
                if bp < at - 1 {
                    assert(key_less(keys[before[bp]], keys[before[at - 1]]) || keys[before[bp]]
                        == keys[before[at - 1]]);
                    lemma_key_less_total(keys[before[bp]], keys[last], key);
                }
            }
        }
    }
}

/// The sorted positions name every position once, and their keys ascend.
/// Where no two keys are equal, each key stands before the next.
pub proof fn lemma_sorted_order(keys: Seq<Seq<char>>)
    ensures
        is_arrangement(sorted_order(keys), keys.len() as int),
        ascending(keys, sorted_order(keys)),
        distinct(keys) ==> strictly_ascending(keys, sorted_order(keys)),
{
    lemma_sorted_prefix(keys, keys.len() as int);
    let order = sorted_order(keys);
    if distinct(keys) {
        assert forall|p: int, q: int| 0 <= p < q < keys.len() implies key_less(
            keys[#[trigger] order[p]],
            keys[#[trigger] order[q]],
        ) by {
            let i = order[p];
            let j = order[q];
            assert(i != j);
            if i < j {
                assert(keys[i] != keys[j]);
            } else {
                assert(keys[j] != keys[i]);
            }
        }
    }
}

/// Whether each key at the positions `order` stands before the next.
pub open spec fn strictly_ascending(keys: Seq<Seq<char>>, order: Seq<int>) -> bool {
    forall|p: int, q: int|
        0 <= p < q < order.len() ==> key_less(keys[#[trigger] order[p]], keys[#[trigger] order[q]])
}

/// There is one way only to put positions in the strictly ascending order
/// of their keys: two sequences that name the same positions and whose
/// keys both ascend strictly are the same sequence.
pub proof fn lemma_ascending_unique(keys: Seq<Seq<char>>, x: Seq<int>, y: Seq<int>)
    requires
        x.len() == y.len(),
        strictly_ascending(keys, x),
        strictly_ascending(keys, y),
        forall|i: int| x.contains(i) <==> y.contains(i),
    ensures
        x == y,
    decreases x.len(),
{
    let n = x.len() as int;
    if n == 0 {
        assert(x =~= y);
    } else {
        let xl = x[n - 1];
        let yl = y[n - 1];
        assert(x.contains(xl));
        assert(y.contains(yl));
        let q = choose|q: int| 0 <= q < n && y[q] == xl;
        let r = choose|r: int| 0 <= r < n && x[r] == yl;
        lemma_key_less_total(keys[xl], keys[yl], keys[xl]);
        assert(xl == yl) by {
            if q < n - 1 {
                assert(key_less(keys[y[q]], keys[y[n - 1]]));
                if r < n - 1 {
                    assert(key_less(keys[x[r]], keys[x[n - 1]]));
                }
            }
        }
        let xf = x.drop_last();
        let yf = y.drop_last();
        assert forall|i: int| xf.contains(i) <==> yf.contains(i) by {
            lemma_key_less_total(keys[i], keys[i], keys[i]);
            if xf.contains(i) {
                let t = choose|t: int| 0 <= t < xf.len() && xf[t] == i;
                assert(x[t] == i);
                assert(x.contains(i));
                let u = choose|u: int| 0 <= u < n && y[u] == i;
                if u == n - 1 {
                    assert(key_less(keys[x[t]], keys[x[n - 1]]));
                }
                assert(yf[u] == i);
            }
            if yf.contains(i) {
                let t = choose|t: int| 0 <= t < yf.len() && yf[t] == i;
                assert(y[t] == i);
                assert(y.contains(i));
                let u = choose|u: int| 0 <= u < n && x[u] == i;
                if u == n - 1 {
                    assert(key_less(keys[y[t]], keys[y[n - 1]]));
                }
                assert(xf[u] == i);
            }
        }
        assert(strictly_ascending(keys, xf)) by {
            assert forall|p: int, q: int| 0 <= p < q < xf.len() implies key_less(
                keys[#[trigger] xf[p]],
                keys[#[trigger] xf[q]],
            ) by {
                assert(xf[p] == x[p] && xf[q] == x[q]);
            }
        }
        assert(strictly_ascending(keys, yf)) by {
            assert forall|p: int, q: int| 0 <= p < q < yf.len() implies key_less(
                keys[#[trigger] yf[p]],
                keys[#[trigger] yf[q]],
            ) by {
                assert(yf[p] == y[p] && yf[q] == y[q]);
            }
        }
        lemma_ascending_unique(keys, xf, yf);
        assert(x =~= xf.push(xl));
        assert(y =~= yf.push(yl));
    }
}

/// Whether `a` stands before `b`, byte by byte.
pub fn bytes_precede(a: &[u8], b: &[u8]) -> (r: bool)
    ensures
        r == bytes_less(a@, b@),
{
    let mut i: usize = 0;
    assert(a@.skip(0) =~= a@ && b@.skip(0) =~= b@);
    while i < a.len() && i < b.len()
        invariant
            i <= a.len(),
            i <= b.len(),
            bytes_less(a@, b@) == bytes_less(a@.skip(i as int), b@.skip(i as int)),
        decreases a.len() - i,
    {
        if a[i] != b[i] {
            return a[i] < b[i];
        }
        assert(a@.skip(i as int).skip(1) =~= a@.skip(i + 1));
        assert(b@.skip(i as int).skip(1) =~= b@.skip(i + 1));
        i += 1;
    }
    i < b.len()
}

/// Whether the key `a` stands before the key `b`.
pub fn key_precedes(a: &str, b: &str) -> (r: bool)
    ensures
        r == key_less(a@, b@),
{
    bytes_precede(a.as_bytes(), b.as_bytes())
}

/// The texts of the keys `keys`.
pub open spec fn key_texts(keys: Seq<&str>) -> Seq<Seq<char>> {
    Seq::new(keys.len(), |i: int| keys[i]@)
}

/// The positions `order` as integers.
pub open spec fn positions(order: Seq<usize>) -> Seq<int> {
    Seq::new(order.len(), |p: int| order[p] as int)
}

/// The positions of `keys`, in the order in which the keys ascend.
pub fn sort_keys(keys: &Vec<&str>) -> (order: Vec<usize>)
    ensures
        positions(order@) == sorted_order(key_texts(keys@)),
{
    let ghost texts = key_texts(keys@);
    let mut order: Vec<usize> = Vec::new();
    let mut i: usize = 0;
    assert(positions(order@) =~= sorted_prefix(texts, 0));
    while i < keys.len()
        invariant
            i <= keys.len(),
            texts == key_texts(keys@),
            positions(order@) == sorted_prefix(texts, i as int),
        decreases keys.len() - i,
    {
        let ghost before = positions(order@);
        proof {
            lemma_sorted_prefix(texts, i as int);
        }
        let mut at: usize = order.len();
        assert(before.take(at as int) =~= before);
        while at > 0 && key_precedes(keys[i], keys[order[at - 1]])
            invariant
                at <= order.len(),
                i < keys.len(),
                texts == key_texts(keys@),
                before == positions(order@),
                is_arrangement(before, i as int),
                insertion_point(texts, before, texts[i as int]) == insertion_point(
                    texts,
                    before.take(at as int),
                    texts[i as int],
                ),
            decreases at,
        {
            assert(before.take(at as int).drop_last() =~= before.take(at - 1));
            at -= 1;
        }
        proof {
            if at > 0 {
                assert(before.take(at as int).last() == before[at - 1]);
            }
        }
        order.insert(at, i);
        assert(positions(order@) =~= before.insert(at as int, i as int));
        i += 1;
    }
    order
}

} // verus!
