//! A string-keyed association list with a `Map` view: the backing structure
//! of the in-memory catalog store and of the chunk cache.
use vstd::prelude::*;

use crate::text::str_eq;

verus! {

/// An insertion-ordered list of key/value pairs with unique keys.
pub struct AssocList<V> {
    pub items: Vec<(String, V)>,
}

/// The map that a pair sequence denotes; a later binding wins.
pub open spec fn assoc_map<V: View>(items: Seq<(String, V)>) -> Map<Seq<char>, V::V>
    decreases items.len(),
{
    if items.len() == 0 {
        Map::empty()
    } else {
        assoc_map(items.drop_last()).insert(items.last().0@, items.last().1@)
    }
}

impl<V: View> AssocList<V> {
    /// The mapping from key to value that this list holds.
    pub open spec fn view(&self) -> Map<Seq<char>, V::V> {
        assoc_map(self.items@)
    }

    /// Keys occur at most once.
    pub open spec fn wf(&self) -> bool {
        forall|i: int, j: int|
            0 <= i < j < self.items@.len() ==> #[trigger] self.items@[i].0@ != #[trigger] self.items@[j].0@
    }

    /// An empty association list.
    pub fn new() -> (r: Self)
        ensures
            r@ == Map::<Seq<char>, V::V>::empty(),
            r.wf(),
    {
        AssocList { items: Vec::new() }
    }

    /// The position of `key`, if it is bound.
    pub fn find_index(&self, key: &str) -> (r: Option<usize>)
        ensures
            match r {
                Some(i) => i < self.items@.len() && self.items@[i as int].0@ == key@,
                None => forall|i: int|
                    0 <= i < self.items@.len() ==> #[trigger] self.items@[i].0@ != key@,
            },
    {
        let mut i: usize = 0;
        while i < self.items.len()
            invariant
                0 <= i <= self.items@.len(),
                forall|t: int| 0 <= t < i ==> #[trigger] self.items@[t].0@ != key@,
            decreases self.items@.len() - i,
        {
            if str_eq(self.items[i].0.as_str(), key) {
                return Some(i);
            }
            i += 1;
        }
        None
    }

    /// A borrowed view of the value bound to `key`.
    pub fn borrow_value(&self, key: &str) -> (r: Option<&V>)
        requires
            self.wf(),
        ensures
            match r {
                Some(v) => self@.contains_key(key@) && v@ == self@[key@],
                None => !self@.contains_key(key@),
            },
    {
        match self.find_index(key) {
            Some(i) => {
                proof {
                    lemma_assoc_found(self.items@, i as int, key@);
                }
                Some(&self.items[i].1)
            },
            None => {
                proof {
                    lemma_assoc_not_found::<V>(self.items@, key@);
                }
                None
            },
        }
    }

    /// Removes and returns the value bound to `key`, if any.
    pub fn take(&mut self, key: &str) -> (r: Option<V>)
        requires
            old(self).wf(),
        ensures
            final(self).wf(),
            match r {
                Some(v) => old(self)@.contains_key(key@) && v@ == old(self)@[key@] && final(self)@
                    == old(self)@.remove(key@),
                None => !old(self)@.contains_key(key@) && final(self)@ == old(self)@,
            },
    {
        match self.find_index(key) {
            Some(i) => {
                proof {
                    lemma_assoc_found(self.items@, i as int, key@);
                    lemma_assoc_remove(self.items@, i as int);
                }
                let pair = self.items.remove(i);
                Some(pair.1)
            },
            None => {
                proof {
                    lemma_assoc_not_found::<V>(self.items@, key@);
                    assert(self@ =~= self@.remove(key@));
                }
                None
            },
        }
    }

    /// Binds `key` to `value`; any previous binding has been taken out first.
    pub fn put(&mut self, key: String, value: V)
        requires
            old(self).wf(),
            !old(self)@.contains_key(key@),
        ensures
            final(self).wf(),
            final(self)@ == old(self)@.insert(key@, value@),
    {
        proof {
            lemma_assoc_no_key(self.items@, key@);
        }
        self.items.push((key, value));
        proof {
            assert(self.items@.drop_last() =~= old(self).items@);
        }
    }
}

/// A key bound nowhere in the list is absent from its map.
pub proof fn lemma_assoc_not_found<V: View>(items: Seq<(String, V)>, key: Seq<char>)
    requires
        forall|i: int| 0 <= i < items.len() ==> #[trigger] items[i].0@ != key,
    ensures
        !assoc_map(items).contains_key(key),
    decreases items.len(),
{
    if items.len() > 0 {
        lemma_assoc_not_found(items.drop_last(), key);
    }
}

/// If the map lacks a key, no pair of the list carries it.
pub proof fn lemma_assoc_no_key<V: View>(items: Seq<(String, V)>, key: Seq<char>)
    requires
        !assoc_map(items).contains_key(key),
    ensures
        forall|i: int| 0 <= i < items.len() ==> #[trigger] items[i].0@ != key,
    decreases items.len(),
{
    if items.len() > 0 {
        lemma_assoc_no_key(items.drop_last(), key);
        assert(forall|i: int|
            0 <= i < items.len() - 1 ==> #[trigger] items[i].0@ == items.drop_last()[i].0@);
    }
}

/// With unique keys, the pair at `i` gives exactly the map's binding.
pub proof fn lemma_assoc_found<V: View>(items: Seq<(String, V)>, i: int, key: Seq<char>)
    requires
        0 <= i < items.len(),
        items[i].0@ == key,
        forall|a: int, b: int|
            0 <= a < b < items.len() ==> #[trigger] items[a].0@ != #[trigger] items[b].0@,
    ensures
        assoc_map(items).contains_key(key),
        assoc_map(items)[key] == items[i].1@,
    decreases items.len(),
{
    if i == items.len() - 1 {
    } else {
        lemma_assoc_found(items.drop_last(), i, key);
        assert(items.drop_last()[i].0@ == key);
        assert(items.last().0@ != key);
    }
}

/// With unique keys, removing the pair at `i` removes exactly its binding,
/// and keys stay unique.
pub proof fn lemma_assoc_remove<V: View>(items: Seq<(String, V)>, i: int)
    requires
        0 <= i < items.len(),
        forall|a: int, b: int|
            0 <= a < b < items.len() ==> #[trigger] items[a].0@ != #[trigger] items[b].0@,
    ensures
        assoc_map(items.remove(i)) == assoc_map(items).remove(items[i].0@),
        forall|a: int, b: int|
            0 <= a < b < items.remove(i).len() ==> #[trigger] items.remove(i)[a].0@
                != #[trigger] items.remove(i)[b].0@,
    decreases items.len(),
{
    let key = items[i].0@;
    if i == items.len() - 1 {
        assert(items.remove(i) =~= items.drop_last());
        assert(forall|a: int|
            0 <= a < items.len() - 1 ==> #[trigger] items.drop_last()[a].0@ != key);
        lemma_assoc_not_found(items.drop_last(), key);
        assert(assoc_map(items.drop_last()) =~= assoc_map(items).remove(key));
    } else {
        lemma_assoc_remove(items.drop_last(), i);
        assert(items.remove(i).drop_last() =~= items.drop_last().remove(i));
        assert(items.remove(i).last() == items.last());
        let inner = assoc_map(items.drop_last());
        assert(assoc_map(items.remove(i)) == assoc_map(items.drop_last().remove(i)).insert(
            items.last().0@,
            items.last().1@,
        ));
        assert(assoc_map(items.drop_last().remove(i)) == inner.remove(key));
        assert(items.last().0@ != key);
        assert(inner.remove(key).insert(items.last().0@, items.last().1@) =~= inner.insert(
            items.last().0@,
            items.last().1@,
        ).remove(key));
    }
}

} // verus!
