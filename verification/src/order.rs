//! The order of strings, which is that of their UTF-8 bytes, and sorting by it.

use crate::text::views;
use vstd::prelude::*;
use vstd::utf8::encode_utf8;

verus! {

/// `a` comes before `b` in lexicographic order.
pub open spec fn bytes_lt(a: Seq<u8>, b: Seq<u8>) -> bool
    decreases a.len(),
{
    if b.len() == 0 {
        false
    } else if a.len() == 0 {
        true
    } else if a[0] != b[0] {
        a[0] < b[0]
    } else {
        bytes_lt(a.drop_first(), b.drop_first())
    }
}

/// `a` comes before `b` in the order of strings.
pub open spec fn text_lt(a: Seq<char>, b: Seq<char>) -> bool {
    bytes_lt(encode_utf8(a), encode_utf8(b))
}

proof fn lemma_bytes_irreflexive(a: Seq<u8>)
    ensures
        !bytes_lt(a, a),
    decreases a.len(),
{
    if a.len() > 0 {
        lemma_bytes_irreflexive(a.drop_first());
    }
}

proof fn lemma_bytes_transitive(a: Seq<u8>, b: Seq<u8>, c: Seq<u8>)
    requires
        bytes_lt(a, b),
        bytes_lt(b, c),
    ensures
        bytes_lt(a, c),
    decreases a.len(),
{
    if a.len() > 0 && b.len() > 0 && c.len() > 0 && a[0] == b[0] && b[0] == c[0] {
        lemma_bytes_transitive(a.drop_first(), b.drop_first(), c.drop_first());
    }
}

proof fn lemma_bytes_total(a: Seq<u8>, b: Seq<u8>)
    ensures
        bytes_lt(a, b) || bytes_lt(b, a) || a == b,
    decreases a.len(),
{
    if a.len() > 0 && b.len() > 0 && a[0] == b[0] {
        lemma_bytes_total(a.drop_first(), b.drop_first());
        if a.drop_first() == b.drop_first() {
            assert(a =~= seq![a[0]] + a.drop_first());
            assert(b =~= seq![b[0]] + b.drop_first());
        }
    } else if a.len() == 0 && b.len() == 0 {
        assert(a =~= b);
    }
}

/// Two texts with the same bytes are the same.
pub proof fn lemma_encode_injective(a: Seq<char>, b: Seq<char>)
    requires
        encode_utf8(a) == encode_utf8(b),
    ensures
        a == b,
{
    vstd::utf8::encode_utf8_decode_utf8(a);
    vstd::utf8::encode_utf8_decode_utf8(b);
}

/// No text comes before itself.
pub broadcast proof fn lemma_text_irreflexive(a: Seq<char>)
    ensures
        !(#[trigger] text_lt(a, a)),
{
    lemma_bytes_irreflexive(encode_utf8(a));
}

/// The order of texts is transitive.
pub broadcast proof fn lemma_text_transitive(a: Seq<char>, b: Seq<char>, c: Seq<char>)
    requires
        #[trigger] text_lt(a, b),
        #[trigger] text_lt(b, c),
    ensures
        text_lt(a, c),
{
    lemma_bytes_transitive(encode_utf8(a), encode_utf8(b), encode_utf8(c));
}

/// Of two different texts one comes before the other.
pub proof fn lemma_text_total(a: Seq<char>, b: Seq<char>)
    ensures
        text_lt(a, b) || text_lt(b, a) || a == b,
{
    lemma_bytes_total(encode_utf8(a), encode_utf8(b));
    if encode_utf8(a) == encode_utf8(b) {
        lemma_encode_injective(a, b);
    }
}

/// Whether `a` comes before `b` in the order of strings.
pub fn text_before(a: &str, b: &str) -> (before: bool)
    ensures
        before == text_lt(a@, b@),
{
    let x = a.as_bytes();
    let y = b.as_bytes();
    let mut i: usize = 0;
    assert(x@.skip(0) == x@);
    assert(y@.skip(0) == y@);
    while i < x.len() && i < y.len()
        invariant
            i <= x@.len(),
            i <= y@.len(),
            x@ == encode_utf8(a@),
            y@ == encode_utf8(b@),
            bytes_lt(x@, y@) == bytes_lt(x@.skip(i as int), y@.skip(i as int)),
        decreases x.len() - i,
    {
        assert(x@.skip(i as int)[0] == x@[i as int]);
        assert(y@.skip(i as int)[0] == y@[i as int]);
        if x[i] != y[i] {
            return x[i] < y[i];
        }
        assert(x@.skip(i as int).drop_first() == x@.skip(i + 1));
        assert(y@.skip(i as int).drop_first() == y@.skip(i + 1));
        i = i + 1;
    }
    i < y.len()
}

// ---- Sorting ---------------------------------------------------------------

/// The key of each pair of a list.
pub open spec fn keys<V>(list: Seq<(String, V)>) -> Seq<Seq<char>> {
    list.map_values(|e: (String, V)| e.0@)
}

/// No later text comes before an earlier one.
pub open spec fn ascending(list: Seq<Seq<char>>) -> bool {
    forall|i: int, j: int| 0 <= i < j < list.len() ==> !text_lt(#[trigger] list[j], #[trigger] list[i])
}

/// Whether the key of a pair is `key`.
pub open spec fn at_key<V>(key: Seq<char>) -> spec_fn((String, V)) -> bool {
    |e: (String, V)| e.0@ == key
}

/// The pairs of `list` whose key is `key`, in the order of the list.
pub open spec fn having<V>(list: Seq<(String, V)>, key: Seq<char>) -> Seq<(String, V)> {
    list.filter(at_key(key))
}

/// `after` holds the pairs of `before`, ordered by key, pairs with one key in
/// the order in which they stood.
pub open spec fn sorted_by_key<V>(before: Seq<(String, V)>, after: Seq<(String, V)>) -> bool {
    &&& ascending(keys(after))
    &&& forall|key: Seq<char>| #[trigger] having(after, key) == having(before, key)
    &&& keys(after).to_multiset() == keys(before).to_multiset()
}

proof fn lemma_having_none<V>(list: Seq<(String, V)>, key: Seq<char>)
    requires
        forall|i: int| 0 <= i < list.len() ==> (#[trigger] list[i]).0@ != key,
    ensures
        having(list, key) == Seq::<(String, V)>::empty(),
    decreases list.len(),
{
    reveal(Seq::filter);
    if list.len() > 0 {
        lemma_having_none(list.drop_last(), key);
    }
}

/// What a list holds at a key are its pairs with that key.
pub proof fn lemma_having_contains<V>(list: Seq<(String, V)>, key: Seq<char>, e: (String, V))
    ensures
        having(list, key).contains(e) <==> list.contains(e) && e.0@ == key,
{
    broadcast use vstd::seq_lib::group_filter_ensures;

    let pred = at_key::<V>(key);
    let found = list.filter(pred);
    assert(having(list, key) == found);
    if found.contains(e) {
        list.lemma_filter_contains_rev(pred, e);
        let i = choose|i: int| 0 <= i < found.len() && found[i] == e;
        assert(pred(list.filter(pred)[i]));
    }
    if list.contains(e) && pred(e) {
        let i = choose|i: int| 0 <= i < list.len() && list[i] == e;
        assert(found.contains(list[i]));
    }
}

proof fn lemma_having_insert<V>(list: Seq<(String, V)>, at: int, e: (String, V), key: Seq<char>)
    requires
        0 <= at <= list.len(),
        forall|i: int| at <= i < list.len() ==> (#[trigger] list[i]).0@ != e.0@,
    ensures
        having(list.insert(at, e), key) == (if e.0@ == key {
            having(list, key).push(e)
        } else {
            having(list, key)
        }),
{
    let pred = at_key::<V>(key);
    let front = list.take(at);
    let back = list.skip(at);
    let one = seq![e];
    assert(list =~= front + back);
    assert(list.insert(at, e) =~= (front + one) + back);
    Seq::filter_distributes_over_add(front, back, pred);
    Seq::filter_distributes_over_add(front + one, back, pred);
    Seq::filter_distributes_over_add(front, one, pred);
    assert(having(one, key) =~= (if e.0@ == key {
        one
    } else {
        Seq::empty()
    })) by {
        reveal_with_fuel(Seq::filter, 2);
        assert(one.drop_last() =~= Seq::<(String, V)>::empty());
        assert(one.last() == e);
    }
    if e.0@ == key {
        assert forall|i: int| 0 <= i < back.len() implies (#[trigger] back[i]).0@ != key by {
            assert(back[i] == list[at + i]);
        }
        lemma_having_none(back, key);
        assert(having(list.insert(at, e), key) =~= having(list, key).push(e));
    } else {
        assert(having(list.insert(at, e), key) =~= having(list, key));
    }
}

/// Sorts pairs by key; pairs with one key keep their order.
pub fn sort_by_key<V>(list: Vec<(String, V)>) -> (sorted: Vec<(String, V)>)
    ensures
        sorted_by_key(list@, sorted@),
{
    let ghost all = list@;
    let mut rest = list;
    let mut sorted: Vec<(String, V)> = Vec::new();
    let ghost mut done: int = 0;
    proof {
        assert(all.take(0) =~= Seq::<(String, V)>::empty());
        assert(all.skip(0) =~= all);
        assert(keys(all.take(0)) =~= Seq::<Seq<char>>::empty());
        assert(keys(sorted@) =~= Seq::<Seq<char>>::empty());
        assert(sorted@ =~= all.take(0));
    }
    while rest.len() > 0
        invariant
            0 <= done <= all.len(),
            rest@ == all.skip(done),
            sorted_by_key(all.take(done), sorted@),
        decreases rest.len(),
    {
        let ghost before = sorted@;
        let e = rest.remove(0);
        assert(e == all[done]);
        let mut at: usize = sorted.len();
        while at > 0 && text_before(e.0.as_str(), sorted[at - 1].0.as_str())
            invariant
                at <= sorted@.len(),
                sorted@ == before,
                ascending(keys(before)),
                forall|i: int| at <= i < before.len() ==> text_lt(e.0@, (#[trigger] before[i]).0@),
            decreases at,
        {
            at = at - 1;
        }
        proof {
            broadcast use lemma_text_irreflexive, lemma_text_transitive;

            let after = before.insert(at as int, e);
            assert(keys(after) =~= keys(before).insert(at as int, e.0@));
            assert forall|i: int, j: int| 0 <= i < j < keys(after).len() implies !text_lt(
                #[trigger] keys(after)[j],
                #[trigger] keys(after)[i],
            ) by {
                if i < at && j > at {
                    assert(keys(after)[i] == keys(before)[i]);
                    assert(keys(after)[j] == keys(before)[j - 1]);
                } else if j < at {
                    assert(keys(after)[i] == keys(before)[i]);
                    assert(keys(after)[j] == keys(before)[j]);
                } else if i > at {
                    assert(keys(after)[i] == keys(before)[i - 1]);
                    assert(keys(after)[j] == keys(before)[j - 1]);
                } else if j == at {
                    assert(keys(before)[i] == before[i].0@);
                    assert(keys(before)[at - 1] == before[at - 1].0@);
                    assert(!text_lt(e.0@, before[at - 1].0@));
                    lemma_text_total(before[at - 1].0@, e.0@);
                    if i < at - 1 {
                        assert(!text_lt(keys(before)[at - 1], keys(before)[i]));
                        lemma_text_total(before[at - 1].0@, before[i].0@);
                    }
                } else {
                    assert(keys(after)[j] == before[j - 1].0@);
                    assert(text_lt(e.0@, before[j - 1].0@));
                }
            }
            let taken = all.take(done + 1);
            assert(taken =~= all.take(done).push(e));
            assert forall|key: Seq<char>| #[trigger]
                having(after, key) == having(taken, key) by {
                lemma_having_insert(before, at as int, e, key);
                lemma_having_insert(all.take(done), done, e, key);
                assert(all.take(done).insert(done, e) =~= taken);
                assert(having(before, key) == having(all.take(done), key));
            }
            assert(keys(taken) =~= keys(all.take(done)).push(e.0@));
            broadcast use vstd::seq_lib::group_to_multiset_ensures;

            assert(keys(before).insert(at as int, e.0@).to_multiset() =~= keys(
                before,
            ).to_multiset().insert(e.0@));
            assert(keys(taken).to_multiset() =~= keys(all.take(done)).to_multiset().insert(e.0@));
            assert(all.skip(done).remove(0) =~= all.skip(done + 1));
            done = done + 1;
        }
        sorted.insert(at, e);
    }
    assert(all.take(done) =~= all);
    sorted
}

/// `after` holds the texts of `before`, in order.
pub open spec fn sorted_texts(before: Seq<Seq<char>>, after: Seq<Seq<char>>) -> bool {
    &&& ascending(after)
    &&& after.to_multiset() == before.to_multiset()
}

/// Sorts texts.
pub fn sort_texts(list: Vec<String>) -> (sorted: Vec<String>)
    ensures
        sorted_texts(views(list@), views(sorted@)),
{
    let ghost all = views(list@);
    let mut rest = list;
    let mut pairs: Vec<(String, ())> = Vec::new();
    let ghost mut done: int = 0;
    assert(keys(pairs@) =~= all.take(0));
    assert(views(rest@) =~= all.skip(0));
    while rest.len() > 0
        invariant
            0 <= done <= all.len(),
            views(rest@) == all.skip(done),
            keys(pairs@) == all.take(done),
        decreases rest.len(),
    {
        let ghost before = pairs@;
        let ghost left = rest@;
        let text = rest.remove(0);
        proof {
            assert(views(left)[0] == text@);
            assert(views(rest@) =~= views(left).drop_first());
            assert(all.skip(done).drop_first() =~= all.skip(done + 1));
            assert(all.take(done + 1) =~= all.take(done).push(text@));
            assert(keys(before.push((text, ()))) =~= keys(before).push(text@));
            done = done + 1;
        }
        pairs.push((text, ()));
    }
    assert(all.take(done) =~= all);
    let mut ordered = sort_by_key(pairs);
    let ghost result = keys(ordered@);
    let mut sorted: Vec<String> = Vec::new();
    let ghost mut at: int = 0;
    assert(views(sorted@) =~= result.take(0));
    assert(keys(ordered@) =~= result.skip(0));
    while ordered.len() > 0
        invariant
            0 <= at <= result.len(),
            keys(ordered@) == result.skip(at),
            views(sorted@) == result.take(at),
        decreases ordered.len(),
    {
        let ghost before = sorted@;
        let ghost left = ordered@;
        let pair = ordered.remove(0);
        proof {
            assert(keys(left)[0] == pair.0@);
            assert(keys(ordered@) =~= keys(left).drop_first());
            assert(result.skip(at).drop_first() =~= result.skip(at + 1));
            assert(result.take(at + 1) =~= result.take(at).push(pair.0@));
            assert(views(before.push(pair.0)) =~= views(before).push(pair.0@));
            at = at + 1;
        }
        sorted.push(pair.0);
    }
    assert(result.take(at) =~= result);
    sorted
}

// ---- Laws ------------------------------------------------------------------

proof fn lemma_last_is_latest(list: Seq<Seq<char>>, text: Seq<char>)
    requires
        ascending(list),
        list.contains(text),
    ensures
        !text_lt(list.last(), text),
{
    let i = choose|i: int| 0 <= i < list.len() && list[i] == text;
    if i < list.len() - 1 {
        assert(!text_lt(list[list.len() - 1], list[i]));
    } else {
        lemma_text_irreflexive(text);
    }
}

/// There is one way to put texts in order.
pub proof fn law_one_order(before: Seq<Seq<char>>, a: Seq<Seq<char>>, b: Seq<Seq<char>>)
    requires
        sorted_texts(before, a),
        sorted_texts(before, b),
    ensures
        a == b,
    decreases a.len(),
{
    broadcast use vstd::seq_lib::group_to_multiset_ensures;

    assert(a.to_multiset().len() == a.len());
    assert(b.to_multiset().len() == b.len());
    if a.len() > 0 {
        assert(a.contains(a[a.len() - 1]));
        assert(b.contains(b[b.len() - 1]));
        assert(b.to_multiset().count(a.last()) > 0);
        assert(a.to_multiset().count(b.last()) > 0);
        lemma_last_is_latest(b, a.last());
        lemma_last_is_latest(a, b.last());
        lemma_text_total(a.last(), b.last());
        let front_a = a.drop_last();
        let front_b = b.drop_last();
        assert(front_a.push(a.last()) =~= a);
        assert(front_b.push(b.last()) =~= b);
        assert(front_a.to_multiset() =~= a.to_multiset().remove(a.last()));
        assert(front_b.to_multiset() =~= b.to_multiset().remove(b.last()));
        law_one_order(front_a, front_a, front_b);
    } else {
        assert(a =~= b);
    }
}

/// There is one way to put pairs in the order of their keys, where pairs with one
/// key keep their order.
pub proof fn law_one_order_of_pairs<V>(
    before: Seq<(String, V)>,
    a: Seq<(String, V)>,
    b: Seq<(String, V)>,
)
    requires
        sorted_by_key(before, a),
        sorted_by_key(before, b),
    ensures
        a == b,
    decreases a.len(),
{
    reveal(Seq::filter);
    law_one_order(keys(before), keys(a), keys(b));
    assert(keys(a).len() == a.len());
    assert(keys(b).len() == b.len());
    if a.len() > 0 {
        let key = a.last().0@;
        assert(keys(a)[a.len() - 1] == key);
        assert(keys(b)[b.len() - 1] == b.last().0@);
        assert(having(a, key) == having(before, key));
        assert(having(b, key) == having(before, key));
        assert(having(a, key).last() == a.last());
        assert(having(b, key).last() == b.last());
        let front_a = a.drop_last();
        let front_b = b.drop_last();
        assert(front_a.push(a.last()) =~= a);
        assert(front_b.push(b.last()) =~= b);
        assert(keys(front_a) =~= keys(a).drop_last());
        assert(keys(front_b) =~= keys(b).drop_last());
        assert forall|k: Seq<char>| #[trigger] having(front_b, k) == having(front_a, k) by {
            assert(having(a, k) == having(before, k));
            assert(having(b, k) == having(before, k));
            if k == key {
                assert(having(front_a, k) =~= having(a, k).drop_last());
                assert(having(front_b, k) =~= having(b, k).drop_last());
            }
        }
        assert(ascending(keys(front_a))) by {
            assert forall|i: int, j: int| 0 <= i < j < keys(front_a).len() implies !text_lt(
                #[trigger] keys(front_a)[j],
                #[trigger] keys(front_a)[i],
            ) by {
                assert(keys(a)[i] == keys(front_a)[i]);
                assert(keys(a)[j] == keys(front_a)[j]);
            }
        }
        law_one_order_of_pairs(front_a, front_a, front_b);
    } else {
        assert(a =~= b);
    }
}

/// Texts without repetition have one order, whatever the order in which they are
/// given.
pub proof fn law_order_of_a_set(
    x: Seq<Seq<char>>,
    y: Seq<Seq<char>>,
    a: Seq<Seq<char>>,
    b: Seq<Seq<char>>,
)
    requires
        x.no_duplicates(),
        y.no_duplicates(),
        forall|t: Seq<char>| #[trigger] x.contains(t) <==> y.contains(t),
        sorted_texts(x, a),
        sorted_texts(y, b),
    ensures
        a == b,
{
    broadcast use vstd::seq_lib::group_to_multiset_ensures;

    x.lemma_multiset_has_no_duplicates();
    y.lemma_multiset_has_no_duplicates();
    assert forall|t: Seq<char>| x.to_multiset().count(t) == #[trigger] y.to_multiset().count(t) by {
        assert(x.contains(t) <==> x.to_multiset().count(t) > 0);
        assert(y.contains(t) <==> y.to_multiset().count(t) > 0);
    }
    assert(x.to_multiset() =~= y.to_multiset());
    law_one_order(x, a, b);
}

/// What a filter leaves.
pub proof fn lemma_filter_iff<A>(s: Seq<A>, pred: spec_fn(A) -> bool, x: A)
    ensures
        s.filter(pred).contains(x) <==> s.contains(x) && pred(x),
{
    broadcast use vstd::seq_lib::group_filter_ensures;

    if s.filter(pred).contains(x) {
        s.lemma_filter_contains_rev(pred, x);
        let i = choose|i: int| 0 <= i < s.filter(pred).len() && s.filter(pred)[i] == x;
        assert(pred(s.filter(pred)[i]));
    }
    if s.contains(x) && pred(x) {
        let i = choose|i: int| 0 <= i < s.len() && s[i] == x;
        assert(s.filter(pred).contains(s[i]));
    }
}

/// What a sequence holds once an element was added.
pub proof fn lemma_push_contains<A>(s: Seq<A>, x: A, o: A)
    ensures
        s.push(x).contains(o) <==> s.contains(o) || o == x,
{
    if s.contains(o) {
        let i = choose|i: int| 0 <= i < s.len() && s[i] == o;
        assert(s.push(x)[i] == o);
    }
    assert(s.push(x)[s.len() as int] == x);
    if s.push(x).contains(o) && o != x {
        let i = choose|i: int| 0 <= i < s.push(x).len() && s.push(x)[i] == o;
        assert(s[i] == o);
    }
}

} // verus!
