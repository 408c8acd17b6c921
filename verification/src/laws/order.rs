//! What sorting is for.

use crate::laws::text::{comes_before, lemma_text_order};
use crate::order::{at_key, having, keys, sort_by_key, sort_texts};
use crate::text::views;
use vstd::prelude::*;
use vstd::seq_lib::group_to_multiset_ensures;

verus! {

proof fn lemma_count_having<V>(list: Seq<(String, V)>, e: (String, V))
    ensures
        list.to_multiset().count(e) == having(list, e.0@).to_multiset().count(e),
    decreases list.len(),
{
    broadcast use group_to_multiset_ensures;

    reveal(Seq::filter);
    if list.len() > 0 {
        let front = list.drop_last();
        lemma_count_having(front, e);
        assert(list =~= front.push(list.last()));
        if list.last().0@ == e.0@ {
            assert(having(list, e.0@) == having(front, e.0@).push(list.last()));
        } else {
            assert(having(list, e.0@) == having(front, e.0@));
        }
    }
}

/// Sorting pairs leaves each as often as it was there, puts none after one that it comes
/// before, and keeps the order of those with one key.
pub proof fn law_sorting_pairs<V>(
    list: Vec<(String, V)>,
    sorted: Vec<(String, V)>,
    key: Seq<char>,
)
    requires
        call_ensures(sort_by_key::<V>, (list,), sorted),
    ensures
        sorted@.to_multiset() == list@.to_multiset(),
        forall|i: int, j: int|
            0 <= i < j < sorted@.len() ==> !comes_before(
                (#[trigger] sorted@[j]).0@,
                (#[trigger] sorted@[i]).0@,
            ),
        sorted@.filter(|e: (String, V)| e.0@ == key) == list@.filter(
            |e: (String, V)| e.0@ == key,
        ),
{
    assert forall|e: (String, V)|
        sorted@.to_multiset().count(e) == #[trigger] list@.to_multiset().count(e) by {
        lemma_count_having(sorted@, e);
        lemma_count_having(list@, e);
        assert(having(sorted@, e.0@) == having(list@, e.0@));
    }
    assert(sorted@.to_multiset() =~= list@.to_multiset());
    assert forall|i: int, j: int| 0 <= i < j < sorted@.len() implies !comes_before(
        (#[trigger] sorted@[j]).0@,
        (#[trigger] sorted@[i]).0@,
    ) by {
        lemma_text_order(sorted@[j].0@, sorted@[i].0@);
        assert(keys(sorted@)[i] == sorted@[i].0@ && keys(sorted@)[j] == sorted@[j].0@);
    }
    let kind = |e: (String, V)| e.0@ == key;
    assert(kind =~= at_key(key));
    assert(having(sorted@, key) == having(list@, key));
}

/// Sorting texts leaves each as often as it was there and puts none after one that it
/// comes before.
pub proof fn law_sorting_texts(list: Vec<String>, sorted: Vec<String>)
    requires
        call_ensures(sort_texts, (list,), sorted),
    ensures
        views(sorted@).to_multiset() == views(list@).to_multiset(),
        forall|i: int, j: int|
            0 <= i < j < sorted@.len() ==> !comes_before(
                (#[trigger] sorted@[j])@,
                (#[trigger] sorted@[i])@,
            ),
{
    assert forall|i: int, j: int| 0 <= i < j < sorted@.len() implies !comes_before(
        (#[trigger] sorted@[j])@,
        (#[trigger] sorted@[i])@,
    ) by {
        lemma_text_order(sorted@[j]@, sorted@[i]@);
        assert(views(sorted@)[i] == sorted@[i]@ && views(sorted@)[j] == sorted@[j]@);
    }
}

} // verus!
