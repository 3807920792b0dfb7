//! The ids whose leader has changed.
use crate::collections::LeaderMap;
use vstd::prelude::*;

verus! {

/// A set of ids that keeps the order in which they came.
#[derive(Debug)]
pub struct ChangedIds {
    ids: Vec<i64>,
    index: LeaderMap,
}

impl View for ChangedIds {
    type V = Seq<i64>;

    closed spec fn view(&self) -> Seq<i64> {
        self.ids@
    }
}

impl ChangedIds {
    /// No id stands twice, and each one can be found.
    pub closed spec fn wf(self) -> bool {
        &&& self.ids@.no_duplicates()
        &&& forall|x: i64| #[trigger] self.index@.contains_key(x) <==> self.ids@.contains(x)
    }

    /// No id stands twice.
    pub proof fn facts(self)
        requires
            self.wf(),
        ensures
            self@.no_duplicates(),
    {
    }

    /// No ids.
    pub fn new() -> (c: ChangedIds)
        ensures
            c.wf(),
            c@ == Seq::<i64>::empty(),
    {
        ChangedIds { ids: Vec::new(), index: LeaderMap::new() }
    }

    /// How many ids there are.
    pub fn len(&self) -> (n: usize)
        ensures
            n == self@.len(),
    {
        self.ids.len()
    }

    /// The ids.
    pub fn ids(&self) -> (v: &Vec<i64>)
        ensures
            v@ == self@,
    {
        &self.ids
    }

    /// Adds an id, unless it is there already.
    pub fn insert(&mut self, x: i64)
        requires
            old(self).wf(),
        ensures
            final(self).wf(),
            final(self)@ == if old(self)@.contains(x) {
                old(self)@
            } else {
                old(self)@.push(x)
            },
    {
        match self.index.get(x) {
            Some(_) => {},
            None => {
                self.index.insert(x, x);
                self.ids.push(x);
                proof {
                    crate::feldera::expr::lemma_push_contains(old(self).ids@, x);
                }
            },
        }
    }

    /// Adds ids.
    pub fn extend(&mut self, more: &Vec<i64>)
        requires
            old(self).wf(),
        ensures
            final(self).wf(),
            forall|x: i64| #[trigger]
                final(self)@.contains(x) <==> old(self)@.contains(x) || more@.contains(x),
    {
        let n: usize = more.len();
        for i in 0..n
            invariant
                n == more@.len(),
                self.wf(),
                forall|x: i64| #[trigger]
                    self@.contains(x) <==> old(self)@.contains(x) || more@.take(
                        i as int,
                    ).contains(x),
        {
            let ghost before = self@;
            self.insert(more[i]);
            proof {
                let m = more@.take(i as int);
                assert(more@.take(i + 1) =~= m.push(more@[i as int]));
                crate::feldera::expr::lemma_push_contains(m, more@[i as int]);
                crate::feldera::expr::lemma_push_contains(before, more@[i as int]);
            }
        }
        assert(more@.take(n as int) =~= more@);
    }
}

} // verus!
