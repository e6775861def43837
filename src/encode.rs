use vstd::prelude::*;
use crate::bencode::{
    Bencode, Value, bytes_encoding, bytes_equal, decimal, entries_view, items_view, push_bytes,
    lemma_list_view, lemma_object_view, push_decimal, MINUS, TAG_DICT, TAG_END, TAG_INT, TAG_LIST,
};

verus! {

/// The encodings of items, one after the other.
pub open spec fn concat_all(encs: Seq<Seq<u8>>) -> Seq<u8>
    decreases encs.len(),
{
    if encs.len() == 0 {
        Seq::empty()
    } else {
        concat_all(encs.drop_last()) + encs.last()
    }
}

/// Byte-wise lexicographic order: `a` comes strictly before `b`.
pub open spec fn lex_lt(a: Seq<u8>, b: Seq<u8>) -> bool
    decreases a.len(),
{
    if a.len() == 0 {
        b.len() > 0
    } else if b.len() == 0 {
        false
    } else if a[0] != b[0] {
        a[0] < b[0]
    } else {
        lex_lt(a.drop_first(), b.drop_first())
    }
}

/// Position in `rest` of the first least key, scanning from `j` with `best` least so far.
pub open spec fn least_from(keys: Seq<Seq<u8>>, rest: Seq<int>, j: int, best: int) -> int
    decreases rest.len() - j,
{
    if j < 0 || j >= rest.len() {
        best
    } else if lex_lt(keys[rest[j]], keys[rest[best]]) {
        least_from(keys, rest, j + 1, j)
    } else {
        least_from(keys, rest, j + 1, best)
    }
}

/// The indices in `rest`, least key first; among equal keys the earlier index first.
pub open spec fn sort_order_from(keys: Seq<Seq<u8>>, rest: Seq<int>) -> Seq<int>
    decreases rest.len(),
{
    if rest.len() == 0 {
        Seq::empty()
    } else {
        let b = least_from(keys, rest, 1, 0);
        if 0 <= b < rest.len() {
            seq![rest[b]] + sort_order_from(keys, rest.remove(b))
        } else {
            Seq::empty()
        }
    }
}

/// The indices of `keys` in the order in which their entries are encoded.
pub open spec fn sort_order(keys: Seq<Seq<u8>>) -> Seq<int> {
    sort_order_from(keys, Seq::new(keys.len(), |i: int| i))
}

pub open spec fn entry_keys(es: Seq<(Seq<u8>, Bencode)>) -> Seq<Seq<u8>> {
    Seq::new(es.len(), |i: int| es[i].0)
}

/// Decimal text of an integer, with a minus sign when it is negative.
pub open spec fn signed_decimal(n: int) -> Seq<u8> {
    if n < 0 {
        seq![MINUS] + decimal((-n) as nat)
    } else {
        decimal(n as nat)
    }
}

/// The encodings of the items of a list.
pub open spec fn item_encodings(xs: Seq<Bencode>) -> Seq<Seq<u8>>
    decreases xs,
{
    Seq::new(
        xs.len(),
        |i: int|
            if 0 <= i < xs.len() {
                encode_spec(xs[i])
            } else {
                Seq::empty()
            },
    )
}

/// The encodings of the entries of a dictionary, key then value, sorted by key.
pub open spec fn entry_encodings(es: Seq<(Seq<u8>, Bencode)>) -> Seq<Seq<u8>>
    decreases es,
{
    let order = sort_order(entry_keys(es));
    Seq::new(
        order.len(),
        |t: int|
            if 0 <= order[t] < es.len() {
                bytes_encoding(es[order[t]].0) + encode_spec(es[order[t]].1)
            } else {
                Seq::empty()
            },
    )
}

/// The bencoding of a value: dictionary entries sorted by key.
pub open spec fn encode_spec(v: Bencode) -> Seq<u8>
    decreases v,
{
    match v {
        Bencode::Int(n) => seq![TAG_INT] + signed_decimal(n) + seq![TAG_END],
        Bencode::Bytes(b) => bytes_encoding(b),
        Bencode::List(xs) => seq![TAG_LIST] + concat_all(item_encodings(xs)) + seq![TAG_END],
        Bencode::Dict(es) => seq![TAG_DICT] + concat_all(entry_encodings(es)) + seq![TAG_END],
    }
}

pub proof fn lemma_lex_irreflexive(a: Seq<u8>)
    ensures
        !lex_lt(a, a),
    decreases a.len(),
{
    if a.len() > 0 {
        lemma_lex_irreflexive(a.drop_first());
    }
}

pub proof fn lemma_lex_transitive(a: Seq<u8>, b: Seq<u8>, c: Seq<u8>)
    requires
        lex_lt(a, b),
        lex_lt(b, c),
    ensures
        lex_lt(a, c),
    decreases a.len(),
{
    if a.len() > 0 && b.len() > 0 && c.len() > 0 && a[0] == b[0] && b[0] == c[0] {
        lemma_lex_transitive(a.drop_first(), b.drop_first(), c.drop_first());
    }
}

proof fn lemma_least_is_least(keys: Seq<Seq<u8>>, rest: Seq<int>, j: int, best: int)
    requires
        0 <= best < rest.len(),
        1 <= j,
        best < j,
        forall|x: int| 0 <= x < j && x < rest.len() ==> !lex_lt(keys[rest[x]], keys[rest[best]]),
    ensures
        forall|x: int|
            0 <= x < rest.len() ==> !lex_lt(
                keys[rest[x]],
                keys[rest[least_from(keys, rest, j, best)]],
            ),
    decreases rest.len() - j,
{
    if j < rest.len() {
        if lex_lt(keys[rest[j]], keys[rest[best]]) {
            assert forall|x: int| 0 <= x < j + 1 && x < rest.len() implies !lex_lt(
                keys[rest[x]],
                keys[rest[j]],
            ) by {
                if x == j {
                    lemma_lex_irreflexive(keys[rest[j]]);
                } else if lex_lt(keys[rest[x]], keys[rest[j]]) {
                    lemma_lex_transitive(keys[rest[x]], keys[rest[j]], keys[rest[best]]);
                }
            }
            lemma_least_is_least(keys, rest, j + 1, j);
            assert(least_from(keys, rest, j, best) == least_from(keys, rest, j + 1, j));
        } else {
            assert forall|x: int| 0 <= x < j + 1 && x < rest.len() implies !lex_lt(
                keys[rest[x]],
                keys[rest[best]],
            ) by {}
            lemma_least_is_least(keys, rest, j + 1, best);
            assert(least_from(keys, rest, j, best) == least_from(keys, rest, j + 1, best));
        }
    } else {
        assert forall|x: int| 0 <= x < rest.len() implies !lex_lt(
            keys[rest[x]],
            keys[rest[least_from(keys, rest, j, best)]],
        ) by {
            assert(least_from(keys, rest, j, best) == best);
        }
    }
}

proof fn lemma_order_from(keys: Seq<Seq<u8>>, rest: Seq<int>)
    ensures
        sort_order_from(keys, rest).len() == rest.len(),
        forall|t: int|
            0 <= t < sort_order_from(keys, rest).len() ==> rest.contains(
                #[trigger] sort_order_from(keys, rest)[t],
            ),
        forall|x: int| rest.contains(x) ==> sort_order_from(keys, rest).contains(x),
        forall|t: int|
            0 <= t < sort_order_from(keys, rest).len() - 1 ==> !lex_lt(
                keys[#[trigger] sort_order_from(keys, rest)[t + 1]],
                keys[sort_order_from(keys, rest)[t]],
            ),
    decreases rest.len(),
{
    if rest.len() > 0 {
        let b = least_from(keys, rest, 1, 0);
        lemma_least_in_range(keys, rest, 1, 0);
        lemma_lex_irreflexive(keys[rest[0]]);
        lemma_least_is_least(keys, rest, 1, 0);
        let smaller = rest.remove(b);
        lemma_order_from(keys, smaller);
        let tail = sort_order_from(keys, smaller);
        let order = sort_order_from(keys, rest);
        assert(order == seq![rest[b]] + tail);
        assert forall|t: int| 0 <= t < order.len() implies rest.contains(#[trigger] order[t]) by {
            if t == 0 {
                assert(rest[b] == order[0]);
            } else {
                assert(order[t] == tail[t - 1]);
                assert(smaller.contains(tail[t - 1]));
                let i = choose|i: int| 0 <= i < smaller.len() && smaller[i] == tail[t - 1];
                if i < b {
                    assert(rest[i] == smaller[i]);
                } else {
                    assert(rest[i + 1] == smaller[i]);
                }
            }
        }
        assert forall|x: int| rest.contains(x) implies order.contains(x) by {
            let i = choose|i: int| 0 <= i < rest.len() && rest[i] == x;
            if i == b {
                assert(order[0] == x);
            } else {
                let at = if i < b { i } else { i - 1 };
                assert(smaller[at] == x);
                assert(smaller.contains(x));
                assert(tail.contains(x));
                let u = choose|u: int| 0 <= u < tail.len() && tail[u] == x;
                assert(order[u + 1] == x);
            }
        }
        assert forall|t: int| 0 <= t < order.len() - 1 implies !lex_lt(
            keys[#[trigger] order[t + 1]],
            keys[order[t]],
        ) by {
            if t == 0 {
                assert(order[1] == tail[0]);
                assert(smaller.contains(tail[0]));
                let i = choose|i: int| 0 <= i < smaller.len() && smaller[i] == tail[0];
                if i < b {
                    assert(rest[i] == smaller[i]);
                } else {
                    assert(rest[i + 1] == smaller[i]);
                }
            } else {
                assert(order[t] == tail[t - 1]);
                assert(order[t + 1] == tail[(t - 1) + 1]);
                assert(!lex_lt(keys[tail[(t - 1) + 1]], keys[tail[t - 1]]));
            }
        }
    }
}

/// The entries of a dictionary are encoded each once, their keys in byte-wise lexicographic
/// order: no key comes before the one encoded ahead of it.
pub proof fn lemma_keys_in_order(keys: Seq<Seq<u8>>)
    ensures
        sort_order(keys).len() == keys.len(),
        forall|i: int| 0 <= i < keys.len() ==> sort_order(keys).contains(i),
        forall|t: int|
            0 <= t < sort_order(keys).len() ==> 0 <= #[trigger] sort_order(keys)[t] < keys.len(),
        forall|t: int|
            0 <= t < sort_order(keys).len() - 1 ==> !lex_lt(
                keys[#[trigger] sort_order(keys)[t + 1]],
                keys[sort_order(keys)[t]],
            ),
{
    let all = Seq::new(keys.len(), |i: int| i);
    lemma_order_from(keys, all);
    assert forall|i: int| 0 <= i < keys.len() implies sort_order(keys).contains(i) by {
        assert(all[i] == i);
        assert(all.contains(i));
    }
    assert forall|t: int| 0 <= t < sort_order(keys).len() implies 0 <= #[trigger] sort_order(
        keys,
    )[t] < keys.len() by {
        assert(all.contains(sort_order(keys)[t]));
    }
}

/// Whether `a` comes strictly before `b` in byte-wise lexicographic order.
pub fn bytes_less(a: &[u8], b: &[u8]) -> (r: bool)
    ensures
        r == lex_lt(a@, b@),
{
    let mut k: usize = 0;
    assert(a@.skip(0) =~= a@);
    assert(b@.skip(0) =~= b@);
    while k < a.len() && k < b.len() && a[k] == b[k]
        invariant
            0 <= k <= a@.len(),
            k <= b@.len(),
            lex_lt(a@, b@) == lex_lt(a@.skip(k as int), b@.skip(k as int)),
        decreases a@.len() - k,
    {
        assert(a@.skip(k as int).drop_first() =~= a@.skip(k + 1));
        assert(b@.skip(k as int).drop_first() =~= b@.skip(k + 1));
        k = k + 1;
    }
    if k == a.len() {
        k < b.len()
    } else if k == b.len() {
        false
    } else {
        a[k] < b[k]
    }
}

pub open spec fn ints(v: Seq<usize>) -> Seq<int> {
    Seq::new(v.len(), |i: int| v[i] as int)
}

proof fn lemma_least_in_range(keys: Seq<Seq<u8>>, rest: Seq<int>, j: int, best: int)
    requires
        0 <= best < rest.len(),
        0 <= j,
    ensures
        0 <= least_from(keys, rest, j, best) < rest.len(),
    decreases rest.len() - j,
{
    if j < rest.len() {
        if lex_lt(keys[rest[j]], keys[rest[best]]) {
            lemma_least_in_range(keys, rest, j + 1, j);
        } else {
            lemma_least_in_range(keys, rest, j + 1, best);
        }
    }
}

fn least_index(entries: &Vec<(Vec<u8>, Value)>, rest: &Vec<usize>) -> (r: usize)
    requires
        rest@.len() > 0,
        forall|i: int| 0 <= i < rest@.len() ==> #[trigger] rest@[i] < entries@.len(),
    ensures
        r as int == least_from(entry_keys(entries_view(entries@)), ints(rest@), 1, 0),
        r < rest@.len(),
{
    let ghost keys = entry_keys(entries_view(entries@));
    let mut best: usize = 0;
    let mut j: usize = 1;
    while j < rest.len()
        invariant
            1 <= j <= rest@.len(),
            best < j,
            keys == entry_keys(entries_view(entries@)),
            forall|i: int| 0 <= i < rest@.len() ==> #[trigger] rest@[i] < entries@.len(),
            least_from(keys, ints(rest@), 1, 0) == least_from(keys, ints(rest@), j as int, best as int),
        decreases rest@.len() - j,
    {
        let candidate = &entries[rest[j]].0;
        let current = &entries[rest[best]].0;
        if bytes_less(candidate.as_slice(), current.as_slice()) {
            best = j;
        }
        j = j + 1;
    }
    best
}

/// The order in which the entries are encoded: by key, least first.
pub fn entry_order(entries: &Vec<(Vec<u8>, Value)>) -> (r: Vec<usize>)
    ensures
        ints(r@) == sort_order(entry_keys(entries_view(entries@))),
        forall|t: int| 0 <= t < r@.len() ==> #[trigger] r@[t] < entries@.len(),
{
    let ghost keys = entry_keys(entries_view(entries@));
    let mut rest: Vec<usize> = Vec::new();
    let mut i: usize = 0;
    while i < entries.len()
        invariant
            0 <= i <= entries@.len(),
            rest@.len() == i,
            forall|x: int| 0 <= x < i ==> #[trigger] rest@[x] == x,
        decreases entries@.len() - i,
    {
        rest.push(i);
        i = i + 1;
    }
    assert(ints(rest@) =~= Seq::new(keys.len(), |x: int| x));
    let mut order: Vec<usize> = Vec::new();
    assert(ints(order@) + ints(rest@) =~= ints(rest@));
    while rest.len() > 0
        invariant
            keys == entry_keys(entries_view(entries@)),
            forall|x: int| 0 <= x < rest@.len() ==> #[trigger] rest@[x] < entries@.len(),
            forall|t: int| 0 <= t < order@.len() ==> #[trigger] order@[t] < entries@.len(),
            sort_order(keys) == ints(order@) + sort_order_from(keys, ints(rest@)),
        decreases rest@.len(),
    {
        let b = least_index(entries, &rest);
        proof {
            lemma_least_in_range(keys, ints(rest@), 1, 0);
            assert(ints(rest@).remove(b as int) =~= ints(rest@.remove(b as int)));
        }
        let ghost before = order@;
        let ghost rest_before = rest@;
        let chosen = rest.remove(b);
        order.push(chosen);
        assert(ints(order@) =~= ints(before) + seq![chosen as int]);
        assert(ints(order@) + sort_order_from(keys, ints(rest@)) =~= ints(before) + sort_order_from(
            keys,
            ints(rest_before),
        ));
    }
    assert(ints(order@) + Seq::<int>::empty() =~= ints(order@));
    order
}

/// Appends the bencoding of a value, dictionary entries sorted by key.
pub fn push_encoding(out: &mut Vec<u8>, value: &Value)
    ensures
        final(out)@ == old(out)@ + encode_spec(value@),
    decreases value,
{
    let ghost start = out@;
    match value {
        Value::Number(n) => {
            out.push(TAG_INT);
            if *n < 0 {
                out.push(MINUS);
                let magnitude: u64 = (-(*n as i128)) as u64;
                push_decimal(out, magnitude);
            } else {
                push_decimal(out, *n as u64);
            }
            out.push(TAG_END);
            assert(out@ =~= start + encode_spec(value@));
        },
        Value::String(bytes) => {
            push_bytes(out, bytes.as_slice());
        },
        Value::List(values) => {
            proof {
                lemma_list_view(*values);
            }
            let ghost xs = items_view(values@);
            let ghost encs = item_encodings(xs);
            out.push(TAG_LIST);
            let mut k: usize = 0;
            assert(encs.take(0) =~= Seq::<Seq<u8>>::empty());
            while k < values.len()
                invariant
                    *value == Value::List(*values),
                    0 <= k <= values@.len(),
                    xs == items_view(values@),
                    encs.len() == xs.len(),
                    forall|i: int| 0 <= i < xs.len() ==> #[trigger] encs[i] == encode_spec(xs[i]),
                    out@ == start + seq![TAG_LIST] + concat_all(encs.take(k as int)),
                decreases values@.len() - k,
            {
                proof {
                    assert(decreases_to!(*value => value->List_0));
                    vstd::std_specs::vec::axiom_vec_index_decreases(value->List_0, k as int);
                }
                push_encoding(out, &values[k]);
                assert(encs.take(k + 1).drop_last() =~= encs.take(k as int));
                assert(out@ =~= start + seq![TAG_LIST] + concat_all(encs.take(k + 1)));
                k = k + 1;
            }
            out.push(TAG_END);
            assert(encs.take(k as int) =~= encs);
            assert(out@ =~= start + encode_spec(value@));
        },
        Value::Object(entries) => {
            proof {
                lemma_object_view(*entries);
            }
            let ghost es = entries_view(entries@);
            let order = entry_order(entries);
            let ghost ord = sort_order(entry_keys(es));
            let ghost encs = entry_encodings(es);
            out.push(TAG_DICT);
            let mut t: usize = 0;
            assert(encs.take(0) =~= Seq::<Seq<u8>>::empty());
            while t < order.len()
                invariant
                    *value == Value::Object(*entries),
                    0 <= t <= order@.len(),
                    es == entries_view(entries@),
                    ints(order@) == ord,
                    encs.len() == ord.len(),
                    forall|x: int| 0 <= x < order@.len() ==> #[trigger] order@[x] < entries@.len(),
                    forall|x: int|
                        0 <= x < ord.len() ==> #[trigger] encs[x] == bytes_encoding(es[ord[x]].0)
                            + encode_spec(es[ord[x]].1),
                    out@ == start + seq![TAG_DICT] + concat_all(encs.take(t as int)),
                decreases order@.len() - t,
            {
                let at = order[t];
                assert(ord[t as int] == at as int);
                let ghost before = out@;
                push_bytes(out, entries[at].0.as_slice());
                proof {
                    assert(decreases_to!(*value => value->Object_0));
                    vstd::std_specs::vec::axiom_vec_index_decreases(value->Object_0, at as int);
                    assert(decreases_to!(entries@[at as int] => entries@[at as int].1));
                }
                push_encoding(out, &entries[at].1);
                assert(out@ =~= before + encs[t as int]);
                assert(encs.take(t + 1).drop_last() =~= encs.take(t as int));
                assert(out@ =~= start + seq![TAG_DICT] + concat_all(encs.take(t + 1)));
                t = t + 1;
            }
            out.push(TAG_END);
            assert(encs.take(t as int) =~= encs);
            assert(out@ =~= start + encode_spec(value@));
        },
    }
}

/// The bencoding of a value, dictionary entries sorted by key.
pub fn encode(value: &Value) -> (r: Vec<u8>)
    ensures
        r@ == encode_spec(value@),
{
    let mut out: Vec<u8> = Vec::new();
    push_encoding(&mut out, value);
    assert(out@ =~= encode_spec(value@));
    out
}

} // verus!
