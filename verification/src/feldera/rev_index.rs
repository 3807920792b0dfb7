//! The reverse index of a view: which rows hold a value.
use crate::collections::{IdMap, RowSet};
use vstd::prelude::*;

verus! {

/// For each value, the rows that are filed under it.
#[derive(Debug)]
pub struct RevIndex {
    slot: IdMap,
    buckets: Vec<RowSet>,
}

impl RevIndex {
    /// The rows that are filed under `v`.
    pub closed spec fn under(&self, v: u32) -> Set<Seq<u32>> {
        if self.slot@.contains_key(v) {
            self.buckets@[self.slot@[v] as int]@
        } else {
            Set::empty()
        }
    }

    /// Each value has a bucket of its own.
    pub closed spec fn wf(&self) -> bool {
        &&& forall|v: u32| #[trigger]
            self.slot@.contains_key(v) ==> self.slot@[v] < self.buckets@.len()
        &&& forall|v: u32, w: u32|
            #![trigger self.slot@.contains_key(v), self.slot@.contains_key(w)]
            self.slot@.contains_key(v) && self.slot@.contains_key(w) && v != w ==> self.slot@[v]
                != self.slot@[w]
    }

    /// An index with no rows.
    pub fn new() -> (r: RevIndex)
        ensures
            r.wf(),
            forall|v: u32| #[trigger] r.under(v) == Set::<Seq<u32>>::empty(),
    {
        RevIndex { slot: IdMap::new(), buckets: Vec::new() }
    }

    /// Files a row under `v`.
    pub fn insert(&mut self, v: u32, row: Vec<u32>)
        requires
            old(self).wf(),
        ensures
            final(self).wf(),
            forall|w: u32| #[trigger]
                final(self).under(w) == (if w == v {
                    old(self).under(w).insert(row@)
                } else {
                    old(self).under(w)
                }),
    {
        match self.slot.get(v) {
            Some(p) => {
                self.buckets[p].insert(row);
            },
            None => {
                let mut b = RowSet::new();
                b.insert(row);
                self.slot.insert(v, self.buckets.len());
                self.buckets.push(b);
            },
        }
    }

    /// Takes a row out of what is filed under `v`.
    pub fn remove(&mut self, v: u32, row: &Vec<u32>)
        requires
            old(self).wf(),
        ensures
            final(self).wf(),
            forall|w: u32| #[trigger]
                final(self).under(w) == (if w == v {
                    old(self).under(w).remove(row@)
                } else {
                    old(self).under(w)
                }),
    {
        match self.slot.get(v) {
            Some(p) => {
                self.buckets[p].remove(row);
            },
            None => {
                assert(self.under(v) =~= old(self).under(v).remove(row@));
            },
        }
    }

    /// The rows that are filed under `v`, each once.
    pub fn rows(&self, v: u32) -> (rows: Vec<Vec<u32>>)
        requires
            self.wf(),
        ensures
            crate::collections::row_views(rows@).to_set() == self.under(v),
            crate::collections::row_views(rows@).no_duplicates(),
    {
        match self.slot.get(v) {
            Some(p) => self.buckets[p].rows(),
            None => {
                let rows: Vec<Vec<u32>> = Vec::new();
                assert(crate::collections::row_views(rows@).to_set() =~= Set::empty());
                rows
            },
        }
    }
}

} // verus!
