//! Maps and sets keyed by names, which keep the order in which the names came.
use crate::text::{str_eq, texts};
use vstd::prelude::*;

verus! {

/// A map from names.
#[derive(Debug)]
pub struct StrMap<V> {
    names: Vec<String>,
    vals: Vec<V>,
}

impl<V> View for StrMap<V> {
    type V = Map<Seq<char>, V>;

    closed spec fn view(&self) -> Map<Seq<char>, V> {
        Map::new(
            |k: Seq<char>| self.order().contains(k),
            |k: Seq<char>| self.vals@[self.order().index_of(k)],
        )
    }
}

impl<V> StrMap<V> {
    /// The names, in the order in which they came.
    pub closed spec fn order(&self) -> Seq<Seq<char>> {
        texts(self.names@)
    }

    /// No name stands twice.
    pub closed spec fn wf(&self) -> bool {
        &&& self.names@.len() == self.vals@.len()
        &&& self.order().no_duplicates()
    }

    /// The names that have a value are those of the order, each once.
    pub proof fn facts(&self)
        requires
            self.wf(),
        ensures
            self.order().no_duplicates(),
            forall|k: Seq<char>| #[trigger] self@.contains_key(k) <==> self.order().contains(k),
    {
    }

    /// What the map has at a position of the order.
    proof fn lemma_at(&self, i: int)
        requires
            self.wf(),
            0 <= i < self.order().len(),
        ensures
            self@.contains_key(self.order()[i]),
            self@[self.order()[i]] == self.vals@[i],
    {
        let k = self.order()[i];
        let j = self.order().index_of(k);
        assert(self.order().contains(k));
        assert(0 <= j < self.order().len() && self.order()[j] == k);
    }

    /// An empty map.
    pub fn new() -> (m: StrMap<V>)
        ensures
            m.wf(),
            m@ == Map::<Seq<char>, V>::empty(),
            m.order() == Seq::<Seq<char>>::empty(),
    {
        let m = StrMap { names: Vec::new(), vals: Vec::new() };
        assert(m.order() =~= Seq::<Seq<char>>::empty());
        assert(m@ =~= Map::<Seq<char>, V>::empty());
        m
    }

    /// The position of a name.
    fn find(&self, name: &str) -> (r: Option<usize>)
        requires
            self.wf(),
        ensures
            r is Some <==> self@.contains_key(name@),
            r is Some ==> r->0 < self.vals@.len() && self.order()[r->0 as int] == name@
                && self.vals@[r->0 as int] == self@[name@],
    {
        let n: usize = self.names.len();
        for i in 0..n
            invariant
                n == self.names@.len(),
                self.wf(),
                forall|k: int| 0 <= k < i ==> #[trigger] self.order()[k] != name@,
        {
            if str_eq(self.names[i].as_str(), name) {
                proof {
                    self.lemma_at(i as int);
                }
                return Some(i);
            }
        }
        None
    }

    /// Whether a name has a value.
    pub fn contains(&self, name: &str) -> (b: bool)
        requires
            self.wf(),
        ensures
            b == self@.contains_key(name@),
    {
        self.find(name).is_some()
    }

    /// The value of a name.
    pub fn get(&self, name: &str) -> (r: Option<&V>)
        requires
            self.wf(),
        ensures
            r is Some <==> self@.contains_key(name@),
            r is Some ==> *r->0 == self@[name@],
    {
        match self.find(name) {
            Some(i) => Some(&self.vals[i]),
            None => None,
        }
    }

    /// Takes a name and its value out.
    pub fn remove(&mut self, name: &str)
        requires
            old(self).wf(),
        ensures
            final(self).wf(),
            final(self)@ == old(self)@.remove(name@),
            final(self).order() == if old(self)@.contains_key(name@) {
                old(self).order().remove(old(self).order().index_of(name@))
            } else {
                old(self).order()
            },
    {
        match self.find(name) {
            None => {
                assert(self@ =~= old(self)@.remove(name@));
            },
            Some(i) => {
                let ghost o = self.order();
                let ghost vals = self.vals@;
                self.names.remove(i);
                self.vals.remove(i);
                proof {
                    let n = self.order();
                    let at = i as int;
                    assert(n =~= o.remove(at));
                    assert(o.index_of(name@) == at) by {
                        let j = o.index_of(name@);
                        assert(o[at] == name@);
                        assert(0 <= j < o.len() && o[j] == name@);
                    }
                    assert forall|a: int, b: int|
                        0 <= a < n.len() && 0 <= b < n.len() && a != b implies n[a] != n[b] by {
                        let x = if a < at { a } else { a + 1 };
                        let y = if b < at { b } else { b + 1 };
                        assert(n[a] == o[x] && n[b] == o[y]);
                    }
                    assert forall|k: Seq<char>| #[trigger]
                        self@.contains_key(k) <==> old(self)@.remove(name@).contains_key(k) by {
                        if n.contains(k) {
                            let a = choose|a: int| 0 <= a < n.len() && n[a] == k;
                            let x = if a < at { a } else { a + 1 };
                            assert(o[x] == k);
                            assert(o[at] == name@);
                        }
                        if o.contains(k) && k != name@ {
                            let x = choose|x: int| 0 <= x < o.len() && o[x] == k;
                            let a = if x < at { x } else { x - 1 };
                            assert(n[a] == k);
                        }
                    }
                    assert forall|k: Seq<char>| #[trigger] self@.contains_key(k) implies self@[k]
                        == old(self)@.remove(name@)[k] by {
                        let a = n.index_of(k);
                        assert(0 <= a < n.len() && n[a] == k);
                        let x = if a < at { a } else { a + 1 };
                        assert(o[x] == k);
                        old(self).lemma_at(x);
                        self.lemma_at(a);
                        assert(self.vals@[a] == vals[x]);
                    }
                    assert(self@ =~= old(self)@.remove(name@));
                }
            },
        }
    }

    /// Gives a name a value; a new name comes last in the order.
    pub fn insert(&mut self, name: String, v: V)
        requires
            old(self).wf(),
        ensures
            final(self).wf(),
            final(self)@ == old(self)@.insert(name@, v),
            final(self).order() == if old(self)@.contains_key(name@) {
                old(self).order()
            } else {
                old(self).order().push(name@)
            },
    {
        match self.find(name.as_str()) {
            Some(i) => {
                self.vals.set(i, v);
                proof {
                    assert(self.order() == old(self).order());
                    self.lemma_at(i as int);
                    assert forall|k: Seq<char>| #[trigger] self@.contains_key(k) implies self@[k]
                        == old(self)@.insert(name@, v)[k] by {
                        let j = self.order().index_of(k);
                        assert(0 <= j < self.order().len() && self.order()[j] == k);
                        if k != name@ {
                            assert(j != i);
                        }
                    }
                    assert(self@ =~= old(self)@.insert(name@, v));
                }
            },
            None => {
                let ghost n = self.names@.len() as int;
                self.names.push(name);
                self.vals.push(v);
                proof {
                    assert(self.order() =~= old(self).order().push(name@));
                    assert(self.order()[n] == name@);
                    assert(!old(self).order().contains(name@));
                    self.lemma_at(n);
                    assert forall|k: Seq<char>| self@.contains_key(k)
                        <==> #[trigger] old(self)@.insert(name@, v).contains_key(k) by {
                        if old(self).order().contains(k) {
                            let j = old(self).order().index_of(k);
                            assert(0 <= j < n && self.order()[j] == k);
                        }
                        if self.order().contains(k) && k != name@ {
                            let j = self.order().index_of(k);
                            assert(0 <= j < self.order().len() && self.order()[j] == k);
                            assert(old(self).order()[j] == k);
                        }
                    }
                    assert forall|k: Seq<char>| #[trigger] self@.contains_key(k) implies self@[k]
                        == old(self)@.insert(name@, v)[k] by {
                        if k != name@ {
                            let j = self.order().index_of(k);
                            assert(0 <= j < self.order().len() && self.order()[j] == k);
                            assert(j < n);
                            old(self).lemma_at(j);
                            self.lemma_at(j);
                        }
                    }
                    assert(self@ =~= old(self)@.insert(name@, v));
                }
            },
        }
    }

    /// Exchanges the value of a name for another one; a name without a value stays without.
    pub fn exchange(&mut self, name: &str, v: &mut V) -> (b: bool)
        requires
            old(self).wf(),
        ensures
            final(self).wf(),
            final(self).order() == old(self).order(),
            b == old(self)@.contains_key(name@),
            b ==> final(self)@ == old(self)@.insert(name@, *old(v)) && *final(v)
                == old(self)@[name@],
            !b ==> final(self)@ == old(self)@ && *final(v) == *old(v),
    {
        match self.find(name) {
            Some(i) => {
                std::mem::swap(&mut self.vals[i], v);
                proof {
                    assert(self.order() == old(self).order());
                    self.lemma_at(i as int);
                    old(self).lemma_at(i as int);
                    assert forall|k: Seq<char>| #[trigger] self@.contains_key(k) implies self@[k]
                        == old(self)@.insert(name@, *old(v))[k] by {
                        let j = self.order().index_of(k);
                        assert(0 <= j < self.order().len() && self.order()[j] == k);
                        self.lemma_at(j);
                        old(self).lemma_at(j);
                        if k != name@ {
                            assert(j != i);
                        }
                    }
                    assert(self@ =~= old(self)@.insert(name@, *old(v)));
                }
                true
            },
            None => false,
        }
    }

    /// How many names have a value.
    pub fn len(&self) -> (n: usize)
        requires
            self.wf(),
        ensures
            n == self.order().len(),
    {
        self.names.len()
    }

    /// The name at a position of the order.
    pub fn name_at(&self, i: usize) -> (s: &String)
        requires
            self.wf(),
            i < self.order().len(),
        ensures
            s@ == self.order()[i as int],
            self@.contains_key(s@),
    {
        proof {
            self.lemma_at(i as int);
        }
        &self.names[i]
    }

    /// The value at a position of the order.
    pub fn val_at(&self, i: usize) -> (v: &V)
        requires
            self.wf(),
            i < self.order().len(),
        ensures
            *v == self@[self.order()[i as int]],
    {
        proof {
            self.lemma_at(i as int);
        }
        &self.vals[i]
    }
}

/// The value of a name in a map of counters; `default` where it has none.
pub open spec fn value_or(m: Map<Seq<char>, i64>, name: Seq<char>, default: i64) -> i64 {
    if m.contains_key(name) {
        m[name]
    } else {
        default
    }
}

impl StrMap<i64> {
    /// The value of a name; `default` where it has none.
    pub fn get_or(&self, name: &str, default: i64) -> (v: i64)
        requires
            self.wf(),
        ensures
            v == value_or(self@, name@, default),
    {
        match self.get(name) {
            Some(v) => *v,
            None => default,
        }
    }
}

/// The names in a list.
pub open spec fn name_set(names: Seq<String>) -> Set<Seq<char>> {
    Set::new(|k: Seq<char>| texts(names).contains(k))
}

/// Whether a name stands in a list.
pub fn holds_name(names: &Vec<String>, name: &str) -> (b: bool)
    ensures
        b == texts(names@).contains(name@),
{
    let n: usize = names.len();
    for i in 0..n
        invariant
            n == names@.len(),
            forall|k: int| 0 <= k < i ==> #[trigger] texts(names@)[k] != name@,
    {
        if str_eq(names[i].as_str(), name) {
            assert(texts(names@)[i as int] == name@);
            return true;
        }
    }
    false
}

/// A list with a name added at its end, unless it stands there already.
pub open spec fn with_name(names: Seq<Seq<char>>, name: Seq<char>) -> Seq<Seq<char>> {
    if names.contains(name) {
        names
    } else {
        names.push(name)
    }
}

/// Adds a name at the end of a list, unless it stands there already.
pub fn add_name(names: &mut Vec<String>, name: &str)
    ensures
        texts(final(names)@) == with_name(texts(old(names)@), name@),
{
    if !holds_name(names, name) {
        names.push(name.to_owned());
        assert(texts(names@) =~= texts(old(names)@).push(name@));
    }
}

} // verus!
