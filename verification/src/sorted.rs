//! A map from strings to values, kept in the order of its keys.

use crate::order::{
    lemma_text_irreflexive, lemma_text_total, lemma_text_transitive, text_before, text_lt,
};
use crate::text::{begins, begins_with, cat2, same_text};
use vstd::prelude::*;

verus! {

/// A map from strings to values. Its entries stand in the order of their keys,
/// and no key occurs twice.
#[derive(Debug, PartialEq, Eq)]
#[verifier::reject_recursive_types(V)]
pub struct SortedMap<V> {
    entries: Vec<(String, V)>,
}

/// The keys are in strictly increasing order.
spec fn strictly_ascending<V>(entries: Seq<(String, V)>) -> bool {
    forall|i: int, j: int|
        0 <= i < j < entries.len() ==> text_lt(
            (#[trigger] entries[i]).0@,
            (#[trigger] entries[j]).0@,
        )
}

/// `key` is that of one of the entries.
spec fn has_key<V>(entries: Seq<(String, V)>, key: Seq<char>) -> bool {
    exists|i: int| 0 <= i < entries.len() && (#[trigger] entries[i]).0@ == key
}

/// The value that stands at `key`.
spec fn value_of<V>(entries: Seq<(String, V)>, key: Seq<char>) -> V {
    entries[choose|i: int| 0 <= i < entries.len() && (#[trigger] entries[i]).0@ == key].1
}

spec fn contents<V>(entries: Seq<(String, V)>) -> Map<Seq<char>, V> {
    Map::new(|key: Seq<char>| has_key(entries, key), |key: Seq<char>| value_of(entries, key))
}

proof fn lemma_at<V>(entries: Seq<(String, V)>, i: int)
    requires
        strictly_ascending(entries),
        0 <= i < entries.len(),
    ensures
        contents(entries).contains_key(entries[i].0@),
        contents(entries)[entries[i].0@] == entries[i].1,
{
    broadcast use lemma_text_irreflexive;

    let key = entries[i].0@;
    let j = choose|j: int| 0 <= j < entries.len() && (#[trigger] entries[j]).0@ == key;
    assert(i == j);
}

/// The position of the first entry whose key does not come before `key`.
fn lower_bound<V>(entries: &Vec<(String, V)>, key: &str) -> (at: usize)
    requires
        strictly_ascending(entries@),
    ensures
        at <= entries@.len(),
        forall|i: int| 0 <= i < at ==> text_lt((#[trigger] entries@[i]).0@, key@),
        forall|i: int| at <= i < entries@.len() ==> !text_lt((#[trigger] entries@[i]).0@, key@),
{
    let mut low: usize = 0;
    let mut high: usize = entries.len();
    while low < high
        invariant
            strictly_ascending(entries@),
            low <= high <= entries@.len(),
            forall|i: int| 0 <= i < low ==> text_lt((#[trigger] entries@[i]).0@, key@),
            forall|i: int|
                high <= i < entries@.len() ==> !text_lt((#[trigger] entries@[i]).0@, key@),
        decreases high - low,
    {
        broadcast use lemma_text_transitive;

        let middle: usize = low + (high - low) / 2;
        if text_before(entries[middle].0.as_str(), key) {
            low = middle + 1;
        } else {
            high = middle;
        }
    }
    low
}

proof fn lemma_found<V>(entries: Seq<(String, V)>, key: Seq<char>, at: int)
    requires
        strictly_ascending(entries),
        0 <= at <= entries.len(),
        forall|i: int| 0 <= i < at ==> text_lt((#[trigger] entries[i]).0@, key),
        forall|i: int| at <= i < entries.len() ==> !text_lt((#[trigger] entries[i]).0@, key),
    ensures
        has_key(entries, key) <==> at < entries.len() && entries[at].0@ == key,
        at < entries.len() && entries[at].0@ != key ==> text_lt(key, entries[at].0@),
        forall|i: int| at < i < entries.len() ==> text_lt(key, (#[trigger] entries[i]).0@),
{
    broadcast use lemma_text_irreflexive, lemma_text_transitive;

    if has_key(entries, key) {
        let i = choose|i: int| 0 <= i < entries.len() && (#[trigger] entries[i]).0@ == key;
        assert(i >= at);
        if i > at {
            assert(text_lt(entries[at].0@, entries[i].0@));
        }
    }
    if at < entries.len() {
        lemma_text_total(entries[at].0@, key);
    }
}

/// `key` is the path `dir`, or that of something in it.
pub open spec fn is_beneath(key: Seq<char>, dir: Seq<char>) -> bool {
    key == dir || begins(key, dir.push('/'))
}

impl<V> View for SortedMap<V> {
    type V = Map<Seq<char>, V>;

    closed spec fn view(&self) -> Map<Seq<char>, V> {
        contents(self.entries@)
    }
}

impl<V> SortedMap<V> {
    #[verifier::type_invariant]
    spec fn well_formed(self) -> bool {
        strictly_ascending(self.entries@)
    }

    /// The keys, in their order.
    pub closed spec fn keys(self) -> Seq<Seq<char>> {
        self.entries@.map_values(|e: (String, V)| e.0@)
    }

    /// The map without entries.
    pub fn new() -> (map: Self)
        ensures
            map@ == Map::<Seq<char>, V>::empty(),
            map.keys() == Seq::<Seq<char>>::empty(),
    {
        let map = SortedMap { entries: Vec::new() };
        assert(map@ =~= Map::<Seq<char>, V>::empty());
        map
    }

    /// The number of entries. The keys are those of the map, each once and in
    /// increasing order.
    pub fn len(&self) -> (n: usize)
        ensures
            n == self.keys().len(),
            forall|i: int, j: int|
                0 <= i < j < self.keys().len() ==> text_lt(
                    #[trigger] self.keys()[i],
                    #[trigger] self.keys()[j],
                ),
            forall|k: Seq<char>| self.keys().contains(k) <==> #[trigger] self@.contains_key(k),
    {
        proof {
            use_type_invariant(&*self);
            let e = self.entries@;
            assert forall|k: Seq<char>|
                self.keys().contains(k) <==> #[trigger] self@.contains_key(k) by {
                if self.keys().contains(k) {
                    let i = choose|i: int| 0 <= i < self.keys().len() && self.keys()[i] == k;
                    assert(e[i].0@ == k);
                }
                if has_key(e, k) {
                    let i = choose|i: int| 0 <= i < e.len() && (#[trigger] e[i]).0@ == k;
                    assert(self.keys()[i] == k);
                }
            }
        }
        self.entries.len()
    }

    /// Whether there are no entries.
    pub fn is_empty(&self) -> (yes: bool)
        ensures
            yes == (self@ == Map::<Seq<char>, V>::empty()),
            yes == (self.keys().len() == 0),
    {
        proof {
            if self.entries@.len() == 0 {
                assert(self@ =~= Map::<Seq<char>, V>::empty());
            } else {
                let first = self.entries@[0];
                assert(has_key(self.entries@, first.0@));
                assert(self@.contains_key(first.0@));
            }
        }
        self.entries.len() == 0
    }

    /// The value at `key`.
    pub fn get(&self, key: &str) -> (value: Option<&V>)
        ensures
            match value {
                Some(v) => self@.contains_key(key@) && *v == self@[key@],
                None => !self@.contains_key(key@),
            },
    {
        proof {
            use_type_invariant(&*self);
        }
        let at: usize = lower_bound(&self.entries, key);
        proof {
            lemma_found(self.entries@, key@, at as int);
        }
        if at < self.entries.len() && same_text(self.entries[at].0.as_str(), key) {
            proof {
                lemma_at(self.entries@, at as int);
            }
            Some(&self.entries[at].1)
        } else {
            None
        }
    }

    /// The entry at position `at` in the order of the keys.
    pub fn entry_at(&self, at: usize) -> (entry: (&String, &V))
        requires
            at < self.keys().len(),
        ensures
            entry.0@ == self.keys()[at as int],
            self@.contains_key(entry.0@),
            *entry.1 == self@[entry.0@],
    {
        proof {
            use_type_invariant(&*self);
            lemma_at(self.entries@, at as int);
        }
        let entry = &self.entries[at];
        (&entry.0, &entry.1)
    }

    /// Puts `value` at `key`, in place of what stood there.
    pub fn insert(&mut self, key: String, value: V)
        ensures
            final(self)@ == old(self)@.insert(key@, value),
    {
        proof {
            use_type_invariant(&*self);
        }
        let ghost before = self.entries@;
        let mut entries: Vec<(String, V)> = Vec::new();
        std::mem::swap(&mut entries, &mut self.entries);
        let at: usize = lower_bound(&entries, key.as_str());
        proof {
            lemma_found(before, key@, at as int);
        }
        if at < entries.len() && same_text(entries[at].0.as_str(), key.as_str()) {
            let _ = entries.remove(at);
        }
        let ghost kept = entries@;
        let ghost inserted = (key, value);
        entries.insert(at, (key, value));
        proof {
            broadcast use lemma_text_irreflexive, lemma_text_transitive;

            let after = kept.insert(at as int, inserted);
            assert forall|i: int| 0 <= i < kept.len() implies (i < at ==> kept[i] == before[i]) && (
            i >= at ==> #[trigger] text_lt(inserted.0@, kept[i].0@)) by {}
            assert(strictly_ascending(after));
            assert forall|k: Seq<char>| #![auto]
                contents(after).contains_key(k) == contents(before).insert(
                    inserted.0@,
                    inserted.1,
                ).contains_key(k) by {
                if has_key(after, k) && k != inserted.0@ {
                    let i = choose|i: int| 0 <= i < after.len() && (#[trigger] after[i]).0@ == k;
                    if i < at {
                        assert(before[i].0@ == k);
                    } else {
                        assert(kept[i - 1].0@ == k);
                        if kept.len() == before.len() {
                            assert(before[i - 1].0@ == k);
                        } else {
                            assert(before[i].0@ == k);
                        }
                    }
                }
                if has_key(before, k) && k != inserted.0@ {
                    let i = choose|i: int| 0 <= i < before.len() && (#[trigger] before[i]).0@ == k;
                    if i < at {
                        assert(after[i].0@ == k);
                    } else if kept.len() == before.len() {
                        assert(after[i + 1].0@ == k);
                    } else {
                        assert(after[i].0@ == k);
                    }
                }
                assert(after[at as int].0@ == inserted.0@);
            }
            assert forall|k: Seq<char>| contents(after).contains_key(k) implies #[trigger] contents(
                after,
            )[k] == contents(before).insert(inserted.0@, inserted.1)[k] by {
                let i = choose|i: int| 0 <= i < after.len() && (#[trigger] after[i]).0@ == k;
                lemma_at(after, i);
                if i < at {
                    lemma_at(before, i);
                } else if i > at {
                    if kept.len() == before.len() {
                        lemma_at(before, i - 1);
                    } else {
                        lemma_at(before, i);
                    }
                }
            }
            assert(contents(after) =~= contents(before).insert(inserted.0@, inserted.1));
        }
        self.entries = entries;
    }

    /// Takes the entry at `key` out, if there is one.
    pub fn remove(&mut self, key: &str) -> (value: Option<V>)
        ensures
            final(self)@ == old(self)@.remove(key@),
            match value {
                Some(v) => old(self)@.contains_key(key@) && v == old(self)@[key@],
                None => !old(self)@.contains_key(key@),
            },
    {
        proof {
            use_type_invariant(&*self);
        }
        let ghost before = self.entries@;
        let mut entries: Vec<(String, V)> = Vec::new();
        std::mem::swap(&mut entries, &mut self.entries);
        let at: usize = lower_bound(&entries, key);
        proof {
            lemma_found(before, key@, at as int);
        }
        if at < entries.len() && same_text(entries[at].0.as_str(), key) {
            let taken = entries.remove(at);
            proof {
                broadcast use lemma_text_irreflexive, lemma_text_transitive;

                let after = before.remove(at as int);
                assert forall|k: Seq<char>| #![auto]
                    contents(after).contains_key(k) == contents(before).remove(
                        key@,
                    ).contains_key(k) by {
                    if has_key(after, k) {
                        let i = choose|i: int|
                            0 <= i < after.len() && (#[trigger] after[i]).0@ == k;
                        if i < at {
                            assert(before[i].0@ == k);
                        } else {
                            assert(before[i + 1].0@ == k);
                        }
                    }
                    if has_key(before, k) && k != key@ {
                        let i = choose|i: int|
                            0 <= i < before.len() && (#[trigger] before[i]).0@ == k;
                        if i < at {
                            assert(after[i].0@ == k);
                        } else {
                            assert(after[i - 1].0@ == k);
                        }
                    }
                }
                assert forall|k: Seq<char>|
                    contents(after).contains_key(k) implies #[trigger] contents(after)[k]
                    == contents(before).remove(key@)[k] by {
                    let i = choose|i: int| 0 <= i < after.len() && (#[trigger] after[i]).0@ == k;
                    lemma_at(after, i);
                    if i < at {
                        lemma_at(before, i);
                    } else {
                        lemma_at(before, i + 1);
                    }
                }
                assert(contents(after) =~= contents(before).remove(key@));
                lemma_at(before, at as int);
            }
            self.entries = entries;
            Some(taken.1)
        } else {
            self.entries = entries;
            assert(self@ =~= old(self)@.remove(key@));
            None
        }
    }

    /// Takes out every entry whose key is `dir` or lies beneath it.
    pub fn remove_beneath(&mut self, dir: &str)
        ensures
            final(self)@ == old(self)@.remove_keys(
                Set::new(|key: Seq<char>| is_beneath(key, dir@)),
            ),
    {
        proof {
            use_type_invariant(&*self);
        }
        let ghost all = self.entries@;
        let ghost gone = Set::new(|key: Seq<char>| is_beneath(key, dir@));
        let mut rest: Vec<(String, V)> = Vec::new();
        std::mem::swap(&mut rest, &mut self.entries);
        let mut kept: Vec<(String, V)> = Vec::new();
        let prefix = cat2(dir, "/");
        let ghost mut done: int = 0;
        proof {
            reveal_strlit("/");
            assert(prefix@ =~= dir@.push('/'));
            assert(all.skip(0) =~= all);
        }
        while rest.len() > 0
            invariant
                0 <= done <= all.len(),
                prefix@ == dir@.push('/'),
                rest@ == all.skip(done),
                strictly_ascending(all),
                strictly_ascending(kept@),
                forall|i: int|
                    0 <= i < kept@.len() ==> all.take(done).contains(#[trigger] kept@[i])
                        && !is_beneath(kept@[i].0@, dir@),
                forall|j: int|
                    0 <= j < done && !is_beneath((#[trigger] all[j]).0@, dir@)
                        ==> kept@.contains(all[j]),
                forall|i: int, j: int|
                    0 <= i < kept@.len() && done <= j < all.len() ==> text_lt(
                        (#[trigger] kept@[i]).0@,
                        (#[trigger] all[j]).0@,
                    ),
            decreases rest.len(),
        {
            let ghost before = kept@;
            let e = rest.remove(0);
            proof {
                assert(e == all[done]);
                assert(all.skip(done).remove(0) =~= all.skip(done + 1));
                assert(all.take(done + 1) =~= all.take(done).push(e));
                assert(all.take(done + 1)[done] == e);
                done = done + 1;
            }
            if !same_text(e.0.as_str(), dir) && !begins_with(e.0.as_str(), prefix.as_str()) {
                kept.push(e);
                proof {
                    assert(kept@[before.len() as int] == all[done - 1]);
                    assert forall|j: int|
                        0 <= j < done && !is_beneath((#[trigger] all[j]).0@, dir@) implies kept@.contains(
                        all[j],
                    ) by {
                        if j < done - 1 {
                            let i = choose|i: int| 0 <= i < before.len() && before[i] == all[j];
                            assert(kept@[i] == all[j]);
                        }
                    }
                }
            }
            proof {
                assert forall|i: int| 0 <= i < kept@.len() implies all.take(done).contains(
                    #[trigger] kept@[i],
                ) && !is_beneath(kept@[i].0@, dir@) by {
                    if i < before.len() {
                        let earlier = all.take(done - 1);
                        let j = choose|j: int| 0 <= j < earlier.len() && earlier[j] == before[i];
                        assert(all.take(done)[j] == before[i]);
                    }
                }
            }
        }
        proof {
            assert(all.take(done) =~= all);
            assert forall|k: Seq<char>| #![auto]
                contents(kept@).contains_key(k) == contents(all).remove_keys(gone).contains_key(
                    k,
                ) by {
                if has_key(kept@, k) {
                    let i = choose|i: int| 0 <= i < kept@.len() && (#[trigger] kept@[i]).0@ == k;
                    let j = choose|j: int| 0 <= j < all.len() && all[j] == kept@[i];
                    assert(all[j].0@ == k);
                }
                if has_key(all, k) && !is_beneath(k, dir@) {
                    let j = choose|j: int| 0 <= j < all.len() && (#[trigger] all[j]).0@ == k;
                    let i = choose|i: int| 0 <= i < kept@.len() && kept@[i] == all[j];
                    assert(kept@[i].0@ == k);
                }
            }
            assert forall|k: Seq<char>| contents(kept@).contains_key(k) implies #[trigger] contents(
                kept@,
            )[k] == contents(all).remove_keys(gone)[k] by {
                let i = choose|i: int| 0 <= i < kept@.len() && (#[trigger] kept@[i]).0@ == k;
                let j = choose|j: int| 0 <= j < all.len() && all[j] == kept@[i];
                lemma_at(kept@, i);
                lemma_at(all, j);
            }
            assert(contents(kept@) =~= contents(all).remove_keys(gone));
        }
        self.entries = kept;
    }
}

impl<V: Clone> Clone for SortedMap<V> {
    fn clone(&self) -> (copy: Self)
        ensures
            copy.keys() == self.keys(),
            copy@.dom() == self@.dom(),
            forall|k: Seq<char>| #[trigger]
                self@.contains_key(k) ==> cloned::<V>(self@[k], copy@[k]),
    {
        proof {
            use_type_invariant(&*self);
        }
        let mut entries: Vec<(String, V)> = Vec::new();
        let mut i: usize = 0;
        while i < self.entries.len()
            invariant
                i <= self.entries@.len(),
                entries@.len() == i,
                forall|j: int|
                    0 <= j < i ==> (#[trigger] entries@[j]).0@ == self.entries@[j].0@ && cloned::<V>(
                        self.entries@[j].1,
                        entries@[j].1,
                    ),
            decreases self.entries.len() - i,
        {
            let value = self.entries[i].1.clone();
            entries.push((self.entries[i].0.clone(), value));
            i = i + 1;
        }
        proof {
            let mine = self.entries@;
            assert forall|a: int, b: int| 0 <= a < b < entries@.len() implies text_lt(
                (#[trigger] entries@[a]).0@,
                (#[trigger] entries@[b]).0@,
            ) by {
                assert(text_lt(mine[a].0@, mine[b].0@));
            }
            assert(strictly_ascending(entries@));
            assert forall|k: Seq<char>| has_key(mine, k) == #[trigger] has_key(entries@, k) by {
                if has_key(mine, k) {
                    let j = choose|j: int| 0 <= j < mine.len() && (#[trigger] mine[j]).0@ == k;
                    assert(entries@[j].0@ == k);
                }
                if has_key(entries@, k) {
                    let j = choose|j: int|
                        0 <= j < entries@.len() && (#[trigger] entries@[j]).0@ == k;
                    assert(mine[j].0@ == k);
                }
            }
            assert(contents(entries@).dom() =~= contents(mine).dom());
            assert forall|k: Seq<char>| #[trigger] contents(mine).contains_key(k) implies cloned::<
                V,
            >(contents(mine)[k], contents(entries@)[k]) by {
                let j = choose|j: int| 0 <= j < mine.len() && (#[trigger] mine[j]).0@ == k;
                assert(entries@[j].0@ == k);
                lemma_at(mine, j);
                lemma_at(entries@, j);
            }
        }
        let copy = SortedMap { entries };
        assert(copy.keys() =~= self.keys());
        copy
    }
}

} // verus!
