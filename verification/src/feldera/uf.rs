//! The in-core union-find of an eq-sort.
//!
//! Unions are queued and applied together. Every id then points at its class
//! leader directly, and the leader is the smallest id of the class.
use crate::collections::LeaderMap;
use vstd::prelude::*;

verus! {

/// The smaller of two ids.
pub open spec fn min_id(a: i64, b: i64) -> i64 {
    if a <= b {
        a
    } else {
        b
    }
}

/// The larger of two ids.
pub open spec fn max_id(a: i64, b: i64) -> i64 {
    if a <= b {
        b
    } else {
        a
    }
}

/// The leaders once the classes of `a` and `b` are one: the larger leader gives
/// way to the smaller one.
pub open spec fn after_union(find: spec_fn(i64) -> i64, a: i64, b: i64) -> spec_fn(i64) -> i64 {
    |x: i64|
        if find(x) == max_id(find(a), find(b)) {
            min_id(find(a), find(b))
        } else {
            find(x)
        }
}

/// The leaders once a sequence of unions has been applied.
pub open spec fn after_unions(find: spec_fn(i64) -> i64, unions: Seq<(i64, i64)>) -> spec_fn(
    i64,
) -> i64
    decreases unions.len(),
{
    if unions.len() == 0 {
        find
    } else {
        after_union(after_unions(find, unions.drop_last()), unions.last().0, unions.last().1)
    }
}

/// The leader function of a union-find: leaders lead themselves and are the
/// smallest of their classes.
pub open spec fn is_leader_fn(find: spec_fn(i64) -> i64) -> bool {
    forall|x: i64| #![trigger find(x)] find(x) <= x && find(find(x)) == find(x)
}

/// The leader of a class is its smallest id.
pub proof fn leader_is_least(find: spec_fn(i64) -> i64, x: i64, y: i64)
    requires
        is_leader_fn(find),
        find(x) == find(y),
    ensures
        find(x) <= y,
{
}

/// One union keeps a leader function a leader function.
pub proof fn union_keeps_leader_fn(find: spec_fn(i64) -> i64, a: i64, b: i64)
    requires
        is_leader_fn(find),
    ensures
        is_leader_fn(after_union(find, a, b)),
{
    let g = after_union(find, a, b);
    assert forall|x: i64| #![trigger g(x)] g(x) <= x && g(g(x)) == g(x) by {
        assert(find(x) <= x && find(find(x)) == find(x));
        assert(find(find(a)) == find(a));
        assert(find(find(b)) == find(b));
    }
}

/// Unions keep a leader function a leader function.
pub proof fn unions_keep_leader_fn(find: spec_fn(i64) -> i64, unions: Seq<(i64, i64)>)
    requires
        is_leader_fn(find),
    ensures
        is_leader_fn(after_unions(find, unions)),
    decreases unions.len(),
{
    if unions.len() > 0 {
        unions_keep_leader_fn(find, unions.drop_last());
        union_keeps_leader_fn(
            after_unions(find, unions.drop_last()),
            unions.last().0,
            unions.last().1,
        );
    }
}

/// Ids in one class stay in one class.
pub proof fn unions_keep_classes(
    find: spec_fn(i64) -> i64,
    unions: Seq<(i64, i64)>,
    x: i64,
    y: i64,
)
    requires
        find(x) == find(y),
    ensures
        after_unions(find, unions)(x) == after_unions(find, unions)(y),
    decreases unions.len(),
{
    if unions.len() > 0 {
        unions_keep_classes(find, unions.drop_last(), x, y);
    }
}

/// The two ids of each union end in one class.
pub proof fn unions_unite(find: spec_fn(i64) -> i64, unions: Seq<(i64, i64)>, i: int)
    requires
        0 <= i < unions.len(),
    ensures
        after_unions(find, unions)(unions[i].0) == after_unions(find, unions)(unions[i].1),
    decreases unions.len(),
{
    if i < unions.len() - 1 {
        unions_unite(find, unions.drop_last(), i);
    }
}

/// Nothing else is united: any labelling that gives each union's ids one label,
/// and each class one label, gives the classes after the unions one label.
pub proof fn unions_unite_nothing_else(
    find: spec_fn(i64) -> i64,
    unions: Seq<(i64, i64)>,
    label: spec_fn(i64) -> int,
    x: i64,
    y: i64,
)
    requires
        forall|u: i64, w: i64| find(u) == find(w) ==> #[trigger] label(u) == #[trigger] label(w),
        forall|i: int|
            0 <= i < unions.len() ==> label((#[trigger] unions[i]).0) == label(unions[i].1),
        after_unions(find, unions)(x) == after_unions(find, unions)(y),
    ensures
        label(x) == label(y),
    decreases unions.len(),
{
    if unions.len() == 0 {
        assert(find(x) == find(y));
    } else {
        let less = unions.drop_last();
        let f = after_unions(find, less);
        let a = unions.last().0;
        let b = unions.last().1;
        assert(label(a) == label(b)) by {
            assert(unions[unions.len() - 1] == unions.last());
        }
        assert forall|i: int| 0 <= i < less.len() implies label((#[trigger] less[i]).0) == label(
            less[i].1,
        ) by {
            assert(less[i] == unions[i]);
        }
        if f(x) == f(y) {
            unions_unite_nothing_else(find, less, label, x, y);
        } else {
            let hi = max_id(f(a), f(b));
            let lo = min_id(f(a), f(b));
            // One of the two moved to the class that the other one is in.
            if f(x) == hi {
                let p = if f(a) == hi { a } else { b };
                let q = if f(a) == hi { b } else { a };
                assert(f(p) == hi && f(q) == lo);
                unions_unite_nothing_else(find, less, label, x, p);
                if f(y) == hi {
                    assert(false);
                }
                unions_unite_nothing_else(find, less, label, q, y);
            } else {
                assert(f(y) == hi);
                let p = if f(a) == hi { a } else { b };
                let q = if f(a) == hi { b } else { a };
                assert(f(p) == hi && f(q) == lo);
                unions_unite_nothing_else(find, less, label, y, p);
                unions_unite_nothing_else(find, less, label, q, x);
            }
        }
    }
}

/// Leaders only ever get smaller.
pub proof fn unions_lower_leaders(find: spec_fn(i64) -> i64, unions: Seq<(i64, i64)>, x: i64)
    ensures
        after_unions(find, unions)(x) <= find(x),
    decreases unions.len(),
{
    if unions.len() > 0 {
        unions_lower_leaders(find, unions.drop_last(), x);
    }
}

/// A union-find with queued unions and a record of the ids that lost their
/// leader.
#[derive(Debug)]
pub struct UfTable {
    /// The leader of each recorded id.
    leaders: LeaderMap,
    /// The recorded ids.
    ids: Vec<i64>,
    /// Unions that are not applied yet.
    pending: Vec<(i64, i64)>,
    /// Ids whose leader changed since the record was last taken, each once.
    displaced: Vec<i64>,
    /// The leader that each of these ids had when the record was last taken.
    before: LeaderMap,
}

impl UfTable {
    /// The leader of each id; an id that was never in a union leads itself.
    pub closed spec fn find(&self) -> spec_fn(i64) -> i64 {
        |x: i64|
            if self.leaders@.contains_key(x) {
                self.leaders@[x]
            } else {
                x
            }
    }

    /// The unions that are not applied yet.
    pub closed spec fn pending(&self) -> Seq<(i64, i64)> {
        self.pending@
    }

    /// The recorded changes of leader.
    pub closed spec fn displaced(&self) -> Seq<i64> {
        self.displaced@
    }

    /// The recorded ids are those with a leader, and the leaders are recorded.
    pub closed spec fn wf(&self) -> bool {
        &&& self.ids@.no_duplicates()
        &&& forall|x: i64| self.ids@.contains(x) <==> #[trigger] self.leaders@.contains_key(x)
        &&& forall|x: i64| #[trigger]
            self.leaders@.contains_key(x) ==> self.leaders@.contains_key(self.leaders@[x])
        &&& is_leader_fn(self.find())
        &&& self.displaced@.no_duplicates()
        &&& forall|x: i64| self.displaced@.contains(x) <==> #[trigger] self.before@.contains_key(x)
    }

    /// Where the invariant holds, leaders lead themselves and are the smallest of
    /// their classes.
    pub proof fn lemma_leader_fn(&self)
        requires
            self.wf(),
        ensures
            is_leader_fn(self.find()),
    {
    }

    /// A union-find in which every id leads itself.
    pub fn new() -> (t: UfTable)
        ensures
            t.wf(),
            forall|x: i64| #[trigger] t.find()(x) == x,
            t.pending() == Seq::<(i64, i64)>::empty(),
            t.displaced() == Seq::<i64>::empty(),
    {
        UfTable {
            leaders: LeaderMap::new(),
            ids: Vec::new(),
            pending: Vec::new(),
            displaced: Vec::new(),
            before: LeaderMap::new(),
        }
    }

    /// The leader of `x`.
    pub fn find_ro(&self, x: i64) -> (l: i64)
        ensures
            l == self.find()(x),
    {
        match self.leaders.get(x) {
            Some(l) => l,
            None => x,
        }
    }

    /// Queues a union.
    pub fn enqueue_union(&mut self, a: i64, b: i64)
        requires
            old(self).wf(),
        ensures
            final(self).wf(),
            final(self).find() == old(self).find(),
            final(self).displaced() == old(self).displaced(),
            final(self).pending() == old(self).pending().push((a, b)),
    {
        self.pending.push((a, b));
        assert(self.find() =~= old(self).find());
    }

    /// Records an id under itself unless it is recorded already.
    fn record(&mut self, x: i64)
        requires
            old(self).wf(),
        ensures
            final(self).wf(),
            final(self).find() == old(self).find(),
            final(self).displaced() == old(self).displaced(),
            final(self).pending() == old(self).pending(),
            final(self).leaders@.contains_key(x),
            forall|y: i64|
                old(self).leaders@.contains_key(y) ==> final(self).leaders@.contains_key(y),
    {
        if self.leaders.get(x).is_none() {
            let ghost ids0 = self.ids@;
            self.leaders.insert(x, x);
            self.ids.push(x);
            assert(self.find() =~= old(self).find());
            assert forall|y: i64| self.ids@.contains(y) <==> #[trigger] self.leaders@.contains_key(
                y,
            ) by {
                if y == x {
                    assert(self.ids@[ids0.len() as int] == x);
                } else if ids0.contains(y) {
                    let k = choose|k: int| 0 <= k < ids0.len() && ids0[k] == y;
                    assert(self.ids@[k] == y);
                }
            }
        }
    }

    /// Unites the classes of `a` and `b`.
    fn apply_union(&mut self, a: i64, b: i64)
        requires
            old(self).wf(),
        ensures
            final(self).wf(),
            final(self).find() == after_union(old(self).find(), a, b),
            final(self).pending() == old(self).pending(),
            forall|x: i64| #[trigger]
                final(self).displaced().contains(x) <==> old(self).displaced().contains(x)
                    || final(self).find()(x) != old(self).find()(x),
    {
        let la: i64 = self.find_ro(a);
        let lb: i64 = self.find_ro(b);
        if la == lb {
            assert(after_union(self.find(), a, b) =~= self.find());
            return;
        }
        self.record(a);
        self.record(b);
        let lo: i64 = if la <= lb {
            la
        } else {
            lb
        };
        let hi: i64 = if la <= lb {
            lb
        } else {
            la
        };
        let ghost f0 = self.find();
        let ghost d0 = self.displaced@;
        let ghost ids = self.ids@;
        proof {
            assert(f0(f0(a)) == f0(a) && f0(f0(b)) == f0(b));
            assert(self.leaders@.contains_key(a) && self.leaders@.contains_key(b));
            assert(self.leaders@.contains_key(la) && self.leaders@.contains_key(lb));
        }
        let n: usize = self.ids.len();
        for i in 0..n
            invariant
                n == ids.len(),
                self.ids@ == ids,
                self.pending@ == old(self).pending@,
                ids.no_duplicates(),
                lo < hi,
                is_leader_fn(f0),
                f0(hi) == hi,
                f0(lo) == lo,
                ids.contains(lo),
                ids.contains(hi),
                forall|x: i64| #[trigger]
                    self.leaders@.contains_key(x) ==> self.leaders@.contains_key(self.leaders@[x]),
                forall|x: i64| ids.contains(x) <==> #[trigger] self.leaders@.contains_key(x),
                forall|x: i64| !ids.contains(x) ==> #[trigger] f0(x) == x,
                forall|k: int|
                    #![trigger ids[k]]
                    0 <= k < i ==> self.leaders@[ids[k]] == (if f0(ids[k]) == hi {
                        lo
                    } else {
                        f0(ids[k])
                    }),
                forall|k: int|
                    #![trigger ids[k]]
                    i <= k < ids.len() ==> self.leaders@[ids[k]] == f0(ids[k]),
                self.displaced@.no_duplicates(),
                forall|x: i64|
                    self.displaced@.contains(x) <==> #[trigger] self.before@.contains_key(x),
                forall|x: i64|
                    #![trigger self.displaced@.contains(x)]
                    self.displaced@.contains(x) <==> d0.contains(x) || (exists|k: int|
                        0 <= k < i && ids[k] == x && f0(x) == hi),
        {
            let x: i64 = self.ids[i];
            assert(ids.contains(ids[i as int]));
            let l: i64 = self.find_ro(x);
            assert(l == f0(x));
            if l == hi {
                let ghost before = self.displaced@;
                self.leaders.insert(x, lo);
                if self.before.get(x).is_none() {
                    self.before.insert(x, l);
                    self.displaced.push(x);
                    proof {
                        crate::feldera::expr::lemma_push_contains(before, x);
                    }
                }
                assert forall|y: i64|
                    #![trigger self.displaced@.contains(y)]
                    self.displaced@.contains(y) <==> d0.contains(y) || (exists|k: int|
                        0 <= k < i + 1 && ids[k] == y && f0(y) == hi) by {
                    if self.displaced@.contains(y) {
                        let j = choose|j: int|
                            0 <= j < self.displaced@.len() && self.displaced@[j] == y;
                        if j < before.len() {
                            assert(before[j] == y);
                            assert(before.contains(y));
                        } else {
                            assert(ids[i as int] == y && f0(y) == hi);
                        }
                    }
                    if before.contains(y) {
                        let j = choose|j: int| 0 <= j < before.len() && before[j] == y;
                        assert(self.displaced@[j] == y);
                    }
                    if y == x {
                        assert(self.before@.contains_key(x));
                        assert(self.displaced@.contains(x));
                    }
                    if exists|k: int| 0 <= k < i + 1 && ids[k] == y && f0(y) == hi {
                        let k = choose|k: int| 0 <= k < i + 1 && ids[k] == y && f0(y) == hi;
                        if k < i {
                            assert(before.contains(y));
                        } else {
                            assert(y == x);
                        }
                    }
                }
            } else {
                assert forall|y: i64|
                    #![trigger self.displaced@.contains(y)]
                    self.displaced@.contains(y) <==> d0.contains(y) || (exists|k: int|
                        0 <= k < i + 1 && ids[k] == y && f0(y) == hi) by {
                    if exists|k: int| 0 <= k < i + 1 && ids[k] == y && f0(y) == hi {
                        let k = choose|k: int| 0 <= k < i + 1 && ids[k] == y && f0(y) == hi;
                        assert(k < i);
                    }
                }
            }
        }
        assert forall|x: i64| #[trigger] self.find()(x) == after_union(old(self).find(), a, b)(
            x,
        ) by {
            if ids.contains(x) {
                let k = choose|k: int| 0 <= k < ids.len() && ids[k] == x;
                assert(self.leaders@[ids[k]] == (if f0(ids[k]) == hi {
                    lo
                } else {
                    f0(ids[k])
                }));
            } else {
                assert(f0(x) == x);
                assert(x != hi);
            }
        }
        assert(self.find() =~= after_union(old(self).find(), a, b));
        proof {
            union_keeps_leader_fn(old(self).find(), a, b);
            assert forall|x: i64| #[trigger]
                self.displaced().contains(x) <==> old(self).displaced().contains(x)
                    || self.find()(x) != old(self).find()(x) by {
                if self.find()(x) != old(self).find()(x) {
                    assert(f0(x) == hi);
                    assert(ids.contains(x));
                }
            }
        }
    }

    /// Applies the queued unions in order.
    pub fn drain_pending(&mut self)
        requires
            old(self).wf(),
        ensures
            final(self).wf(),
            final(self).find() == after_unions(old(self).find(), old(self).pending()),
            final(self).pending() == Seq::<(i64, i64)>::empty(),
            forall|x: i64| #[trigger]
                final(self).displaced().contains(x) <==> old(self).displaced().contains(x)
                    || final(self).find()(x) != old(self).find()(x),
    {
        let ghost todo = self.pending@;
        let n: usize = self.pending.len();
        for i in 0..n
            invariant
                n == todo.len(),
                todo == old(self).pending@,
                self.wf(),
                self.pending@ == todo,
                self.find() == after_unions(old(self).find(), todo.take(i as int)),
                forall|x: i64| #[trigger]
                    self.displaced().contains(x) <==> old(self).displaced().contains(x)
                        || self.find()(x) != old(self).find()(x),
        {
            let ghost before = *self;
            let (a, b) = self.pending[i];
            self.apply_union(a, b);
            proof {
                let upto = todo.take(i + 1);
                assert(upto.drop_last() =~= todo.take(i as int));
                assert(upto.last() == todo[i as int]);
                assert forall|x: i64| #[trigger]
                    self.displaced().contains(x) <==> old(self).displaced().contains(x)
                        || self.find()(x) != old(self).find()(x) by {
                    unions_lower_leaders(old(self).find(), todo.take(i as int), x);
                    unions_lower_leaders(before.find(), seq![(a, b)], x);
                    assert(seq![(a, b)].drop_last() =~= Seq::<(i64, i64)>::empty());
                    assert(before.displaced().contains(x) <==> old(self).displaced().contains(x)
                        || before.find()(x) != old(self).find()(x));
                }
            }
        }
        assert(todo.take(n as int) =~= todo);
        let ghost last = *self;
        self.pending.clear();
        assert(self.find() =~= last.find());
        assert(self.displaced() == last.displaced());
        assert(self.pending@ =~= Seq::<(i64, i64)>::empty());
    }

    /// How many changes of leader are recorded.
    pub fn displaced_len(&self) -> (n: usize)
        ensures
            n == self.displaced().len(),
    {
        self.displaced.len()
    }

    /// Takes the record of changed leaders.
    pub fn drain_displaced(&mut self) -> (d: Vec<i64>)
        requires
            old(self).wf(),
        ensures
            d@ == old(self).displaced(),
            d@.no_duplicates(),
            final(self).wf(),
            final(self).find() == old(self).find(),
            final(self).pending() == old(self).pending(),
            final(self).displaced() == Seq::<i64>::empty(),
    {
        let mut d: Vec<i64> = Vec::new();
        std::mem::swap(&mut self.displaced, &mut d);
        self.before = LeaderMap::new();
        assert(self.find() =~= old(self).find());
        d
    }
}

} // verus!
