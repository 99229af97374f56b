//! The in-memory catalog store: a mapping from catalog identifier to the
//! entries accumulated for it so far. Entries are only ever appended; a
//! catalog's sequence never shrinks while the store lives.
use vstd::prelude::*;

use crate::assoc::AssocList;
use crate::entry::{clone_entries, CatalogEntry};

verus! {

/// A process-wide accumulation of catalog entries, keyed by catalog id.
pub struct CatalogStore {
    inner: AssocList<Vec<CatalogEntry>>,
}

impl CatalogStore {
    /// The mapping from catalog id to its entry sequence.
    pub closed spec fn view(&self) -> Map<Seq<char>, Seq<CatalogEntry>> {
        self.inner@
    }

    /// The well-formedness the store maintains.
    pub closed spec fn wf(&self) -> bool {
        self.inner.wf()
    }

    /// The entries held for `id`: the bound sequence, or empty when unbound.
    pub open spec fn spec_entries_of(&self, id: Seq<char>) -> Seq<CatalogEntry> {
        if self@.contains_key(id) {
            self@[id]
        } else {
            Seq::empty()
        }
    }

    /// An empty store.
    pub fn new() -> (r: Self)
        ensures
            r@ == Map::<Seq<char>, Seq<CatalogEntry>>::empty(),
            r.wf(),
    {
        CatalogStore { inner: AssocList::new() }
    }

    /// A defensive snapshot of the entries held for `id`; `None` when the
    /// catalog has never been merged.
    pub fn get(&self, id: &str) -> (r: Option<Vec<CatalogEntry>>)
        requires
            self.wf(),
        ensures
            match r {
                Some(v) => self@.contains_key(id@) && v@ == self@[id@],
                None => !self@.contains_key(id@),
            },
    {
        match self.inner.borrow_value(id) {
            Some(v) => Some(clone_entries(v)),
            None => None,
        }
    }

    /// How many entries are held for `id`; zero when unbound.
    pub fn count(&self, id: &str) -> (r: usize)
        requires
            self.wf(),
        ensures
            r == self.spec_entries_of(id@).len(),
    {
        match self.inner.borrow_value(id) {
            Some(v) => v.len(),
            None => 0,
        }
    }

    /// Appends `entries` to the sequence held for `id`, binding the id first
    /// when absent. Nothing is removed and nothing else changes.
    pub fn append(&mut self, id: &str, entries: Vec<CatalogEntry>)
        requires
            old(self).wf(),
        ensures
            final(self).wf(),
            final(self)@ == old(self)@.insert(
                id@,
                old(self).spec_entries_of(id@) + entries@,
            ),
    {
        let mut merged: Vec<CatalogEntry> = match self.inner.take(id) {
            Some(v) => v,
            None => Vec::new(),
        };
        let ghost entries0 = entries@;
        let mut entries = entries;
        merged.append(&mut entries);
        let key: String = id.to_owned();
        self.inner.put(key, merged);
        proof {
            assert(self@ =~= old(self)@.insert(
                id@,
                old(self).spec_entries_of(id@) + entries0,
            ));
        }
    }
}

} // verus!
