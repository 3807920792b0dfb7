//! The hash collections that the backends keep their state in.
//!
//! Each type holds one `hashbrown` collection. What it contains is given by a
//! spec function of the same module, and each method states over it what the
//! `hashbrown` method does. Nothing is said of the order in which a collection
//! hands out its items.
use std::rc::Rc;
use vstd::prelude::*;

verus! {

/// A set of rows.
#[verifier::external_body]
#[derive(Debug)]
pub struct RowSet {
    inner: hashbrown::HashSet<Vec<u32>>,
}

/// The rows of a [`RowSet`].
pub uninterp spec fn row_set(s: RowSet) -> Set<Seq<u32>>;

impl View for RowSet {
    type V = Set<Seq<u32>>;

    open spec fn view(&self) -> Set<Seq<u32>> {
        row_set(*self)
    }
}

impl RowSet {
    /// `hashbrown::HashSet::new`: the empty set.
    #[verifier::external_body]
    pub(crate) fn new() -> (s: RowSet)
        ensures
            row_set(s) == Set::<Seq<u32>>::empty(),
    {
        RowSet { inner: hashbrown::HashSet::new() }
    }

    /// `hashbrown::HashSet::contains`: whether the row is in the set.
    #[verifier::external_body]
    pub(crate) fn contains(&self, row: &Vec<u32>) -> (b: bool)
        ensures
            b == self@.contains(row@),
    {
        self.inner.contains(row)
    }

    /// `hashbrown::HashSet::insert`: adds the row and says whether it was new.
    #[verifier::external_body]
    pub(crate) fn insert(&mut self, row: Vec<u32>) -> (b: bool)
        ensures
            final(self)@ == old(self)@.insert(row@),
            b == !old(self)@.contains(row@),
    {
        self.inner.insert(row)
    }

    /// `hashbrown::HashSet::remove`: drops the row and says whether it was there.
    #[verifier::external_body]
    pub(crate) fn remove(&mut self, row: &Vec<u32>) -> (b: bool)
        ensures
            final(self)@ == old(self)@.remove(row@),
            b == old(self)@.contains(row@),
    {
        self.inner.remove(row)
    }

    /// `hashbrown::HashSet::len`: how many rows there are.
    #[verifier::external_body]
    pub(crate) fn len(&self) -> (n: usize)
        ensures
            n == self@.len(),
    {
        self.inner.len()
    }

    /// `hashbrown::HashSet::iter`, collected: every row once, in some order.
    #[verifier::external_body]
    pub(crate) fn rows(&self) -> (v: Vec<Vec<u32>>)
        ensures
            row_views(v@).no_duplicates(),
            row_views(v@).to_set() == self@,
    {
        self.inner.iter().cloned().collect()
    }

    /// `std::rc::Rc::make_mut`: a reference to the shared set's contents, of
    /// which a copy is made first where it is shared.
    #[verifier::external_body]
    pub(crate) fn make_mut(this: &mut Rc<RowSet>) -> (s: &mut RowSet)
        ensures
            s@ == (**old(this))@,
            **final(this) == *final(s),
    {
        Rc::make_mut(this)
    }
}

impl Clone for RowSet {
    /// `hashbrown::HashSet::clone`: a set of the same rows.
    #[verifier::external_body]
    fn clone(&self) -> (s: RowSet)
        ensures
            s@ == self@,
    {
        RowSet { inner: self.inner.clone() }
    }
}

/// The views of a sequence of rows.
pub open spec fn row_views(rows: Seq<Vec<u32>>) -> Seq<Seq<u32>> {
    rows.map_values(|r: Vec<u32>| r@)
}

/// A binding environment: the value of each bound variable.
#[verifier::external_body]
#[derive(Debug)]
pub struct Env {
    inner: hashbrown::HashMap<u32, u32>,
}

/// The bindings of an [`Env`].
pub uninterp spec fn env_map(e: Env) -> Map<u32, u32>;

impl View for Env {
    type V = Map<u32, u32>;

    open spec fn view(&self) -> Map<u32, u32> {
        env_map(*self)
    }
}

impl Env {
    /// `hashbrown::HashMap::new`: no bindings.
    #[verifier::external_body]
    pub(crate) fn new() -> (e: Env)
        ensures
            env_map(e) == (Map::<u32, u32>::empty()),
    {
        Env { inner: hashbrown::HashMap::new() }
    }

    /// `hashbrown::HashMap::get`: the value bound to `v`, if any.
    #[verifier::external_body]
    pub(crate) fn get(&self, v: u32) -> (r: Option<u32>)
        ensures
            r == (if self@.contains_key(v) {
                Some(self@[v])
            } else {
                None
            }),
    {
        self.inner.get(&v).copied()
    }

    /// `hashbrown::HashMap::insert`: binds `v` to `val`, whatever it was bound to.
    #[verifier::external_body]
    pub(crate) fn insert(&mut self, v: u32, val: u32) -> (r: Option<u32>)
        ensures
            final(self)@ == old(self)@.insert(v, val),
            r == (if old(self)@.contains_key(v) {
                Some(old(self)@[v])
            } else {
                None
            }),
    {
        self.inner.insert(v, val)
    }
}

impl Clone for Env {
    /// `hashbrown::HashMap::clone`: the same bindings.
    #[verifier::external_body]
    fn clone(&self) -> (e: Env)
        ensures
            e@ == self@,
    {
        Env { inner: self.inner.clone() }
    }
}

/// A map from 32-bit ids to positions.
#[verifier::external_body]
#[derive(Debug)]
pub struct IdMap {
    inner: hashbrown::HashMap<u32, usize>,
}

/// The entries of an [`IdMap`].
pub uninterp spec fn id_map(m: IdMap) -> Map<u32, usize>;

impl View for IdMap {
    type V = Map<u32, usize>;

    open spec fn view(&self) -> Map<u32, usize> {
        id_map(*self)
    }
}

impl IdMap {
    /// `hashbrown::HashMap::new`: no entries.
    #[verifier::external_body]
    pub(crate) fn new() -> (m: IdMap)
        ensures
            id_map(m) == (Map::<u32, usize>::empty()),
    {
        IdMap { inner: hashbrown::HashMap::new() }
    }

    /// `hashbrown::HashMap::get`: the entry of `k`, if any.
    #[verifier::external_body]
    pub(crate) fn get(&self, k: u32) -> (r: Option<usize>)
        ensures
            r == (if self@.contains_key(k) {
                Some(self@[k])
            } else {
                None
            }),
    {
        self.inner.get(&k).copied()
    }

    /// `hashbrown::HashMap::insert`: sets the entry of `k`, whatever it was.
    #[verifier::external_body]
    pub(crate) fn insert(&mut self, k: u32, v: usize) -> (r: Option<usize>)
        ensures
            final(self)@ == old(self)@.insert(k, v),
            r == (if old(self)@.contains_key(k) {
                Some(old(self)@[k])
            } else {
                None
            }),
    {
        self.inner.insert(k, v)
    }

    /// `hashbrown::HashMap::remove`: drops the entry of `k`, if there is one.
    #[verifier::external_body]
    pub(crate) fn remove(&mut self, k: u32) -> (r: Option<usize>)
        ensures
            final(self)@ == old(self)@.remove(k),
            r == (if old(self)@.contains_key(k) {
                Some(old(self)@[k])
            } else {
                None
            }),
    {
        self.inner.remove(&k)
    }
}

impl Clone for IdMap {
    /// `hashbrown::HashMap::clone`: the same entries.
    #[verifier::external_body]
    fn clone(&self) -> (m: IdMap)
        ensures
            m@ == self@,
    {
        IdMap { inner: self.inner.clone() }
    }
}

/// A set of positions.
#[verifier::external_body]
#[derive(Debug)]
pub struct IdSet {
    inner: hashbrown::HashSet<usize>,
}

/// The members of an [`IdSet`].
pub uninterp spec fn id_set(s: IdSet) -> Set<usize>;

impl View for IdSet {
    type V = Set<usize>;

    open spec fn view(&self) -> Set<usize> {
        id_set(*self)
    }
}

impl IdSet {
    /// `hashbrown::HashSet::new`: the empty set.
    #[verifier::external_body]
    pub(crate) fn new() -> (s: IdSet)
        ensures
            id_set(s) == Set::<usize>::empty(),
    {
        IdSet { inner: hashbrown::HashSet::new() }
    }

    /// `hashbrown::HashSet::contains`: whether `i` is a member.
    #[verifier::external_body]
    pub(crate) fn contains(&self, i: usize) -> (b: bool)
        ensures
            b == self@.contains(i),
    {
        self.inner.contains(&i)
    }

    /// `hashbrown::HashSet::insert`: adds `i` and says whether it was new.
    #[verifier::external_body]
    pub(crate) fn insert(&mut self, i: usize) -> (b: bool)
        ensures
            final(self)@ == old(self)@.insert(i),
            b == !old(self)@.contains(i),
    {
        self.inner.insert(i)
    }

    /// `hashbrown::HashSet::remove`: drops `i` and says whether it was there.
    #[verifier::external_body]
    pub(crate) fn remove(&mut self, i: usize) -> (b: bool)
        ensures
            final(self)@ == old(self)@.remove(i),
            b == old(self)@.contains(i),
    {
        self.inner.remove(&i)
    }
}

/// A map from rows to 32-bit values.
#[verifier::external_body]
#[derive(Debug)]
pub struct KeyMap {
    inner: hashbrown::HashMap<Vec<u32>, u32>,
}

/// The entries of a [`KeyMap`].
pub uninterp spec fn key_map(m: KeyMap) -> Map<Seq<u32>, u32>;

impl View for KeyMap {
    type V = Map<Seq<u32>, u32>;

    open spec fn view(&self) -> Map<Seq<u32>, u32> {
        key_map(*self)
    }
}

impl KeyMap {
    /// `hashbrown::HashMap::new`: no entries.
    #[verifier::external_body]
    pub(crate) fn new() -> (m: KeyMap)
        ensures
            key_map(m) == (Map::<Seq<u32>, u32>::empty()),
    {
        KeyMap { inner: hashbrown::HashMap::new() }
    }

    /// `hashbrown::HashMap::get`: the entry of `k`, if any.
    #[verifier::external_body]
    pub(crate) fn get(&self, k: &Vec<u32>) -> (r: Option<u32>)
        ensures
            r == (if self@.contains_key(k@) {
                Some(self@[k@])
            } else {
                None
            }),
    {
        self.inner.get(k).copied()
    }

    /// `hashbrown::HashMap::insert`: sets the entry of `k`, whatever it was.
    #[verifier::external_body]
    pub(crate) fn insert(&mut self, k: Vec<u32>, v: u32) -> (r: Option<u32>)
        ensures
            final(self)@ == old(self)@.insert(k@, v),
            r == (if old(self)@.contains_key(k@) {
                Some(old(self)@[k@])
            } else {
                None
            }),
    {
        self.inner.insert(k, v)
    }
}

/// A map from ids to ids.
#[verifier::external_body]
#[derive(Debug)]
pub struct LeaderMap {
    inner: hashbrown::HashMap<i64, i64>,
}

/// The entries of a [`LeaderMap`].
pub uninterp spec fn leader_map(m: LeaderMap) -> Map<i64, i64>;

impl View for LeaderMap {
    type V = Map<i64, i64>;

    open spec fn view(&self) -> Map<i64, i64> {
        leader_map(*self)
    }
}

impl LeaderMap {
    /// `hashbrown::HashMap::new`: no entries.
    #[verifier::external_body]
    pub(crate) fn new() -> (m: LeaderMap)
        ensures
            leader_map(m) == (Map::<i64, i64>::empty()),
    {
        LeaderMap { inner: hashbrown::HashMap::new() }
    }

    /// `hashbrown::HashMap::get`: the entry of `k`, if any.
    #[verifier::external_body]
    pub(crate) fn get(&self, k: i64) -> (r: Option<i64>)
        ensures
            r == (if self@.contains_key(k) {
                Some(self@[k])
            } else {
                None
            }),
    {
        self.inner.get(&k).copied()
    }

    /// `hashbrown::HashMap::insert`: sets the entry of `k`, whatever it was.
    #[verifier::external_body]
    pub(crate) fn insert(&mut self, k: i64, v: i64) -> (r: Option<i64>)
        ensures
            final(self)@ == old(self)@.insert(k, v),
            r == (if old(self)@.contains_key(k) {
                Some(old(self)@[k])
            } else {
                None
            }),
    {
        self.inner.insert(k, v)
    }
}

/// A map from rows to weights.
#[verifier::external_body]
#[derive(Debug)]
pub struct WeightMap {
    inner: hashbrown::HashMap<Vec<u32>, i64>,
}

/// The entries of a [`WeightMap`].
pub uninterp spec fn weight_map(m: WeightMap) -> Map<Seq<u32>, i64>;

impl View for WeightMap {
    type V = Map<Seq<u32>, i64>;

    open spec fn view(&self) -> Map<Seq<u32>, i64> {
        weight_map(*self)
    }
}

/// The views of a sequence of weighted rows.
pub open spec fn weighted_views(rows: Seq<(Vec<u32>, i64)>) -> Seq<(Seq<u32>, i64)> {
    rows.map_values(|r: (Vec<u32>, i64)| (r.0@, r.1))
}

/// Whether a sequence holds every entry of a map once.
pub open spec fn are_entries(rows: Seq<(Vec<u32>, i64)>, m: Map<Seq<u32>, i64>) -> bool {
    &&& weighted_views(rows).no_duplicates()
    &&& forall|e: (Seq<u32>, i64)| #[trigger]
        weighted_views(rows).contains(e) <==> m.contains_key(e.0) && m[e.0] == e.1
}

impl WeightMap {
    /// `hashbrown::HashMap::new`: no entries.
    #[verifier::external_body]
    pub(crate) fn new() -> (m: WeightMap)
        ensures
            weight_map(m) == (Map::<Seq<u32>, i64>::empty()),
    {
        WeightMap { inner: hashbrown::HashMap::new() }
    }

    /// `hashbrown::HashMap::get`: the entry of `k`, if any.
    #[verifier::external_body]
    pub(crate) fn get(&self, k: &Vec<u32>) -> (r: Option<i64>)
        ensures
            r == (if self@.contains_key(k@) {
                Some(self@[k@])
            } else {
                None
            }),
    {
        self.inner.get(k).copied()
    }

    /// `hashbrown::HashMap::insert`: sets the entry of `k`, whatever it was.
    #[verifier::external_body]
    pub(crate) fn insert(&mut self, k: Vec<u32>, v: i64) -> (r: Option<i64>)
        ensures
            final(self)@ == old(self)@.insert(k@, v),
            r == (if old(self)@.contains_key(k@) {
                Some(old(self)@[k@])
            } else {
                None
            }),
    {
        self.inner.insert(k, v)
    }

    /// `hashbrown::HashMap::into_iter`, collected: every entry once, in some order.
    #[verifier::external_body]
    pub(crate) fn into_entries(self) -> (v: Vec<(Vec<u32>, i64)>)
        ensures
            are_entries(v@, self@),
    {
        self.inner.into_iter().collect()
    }
}

/// A set of pairs of ids.
#[verifier::external_body]
#[derive(Debug)]
pub struct PairSet {
    inner: hashbrown::HashSet<(u64, u64)>,
}

/// The members of a [`PairSet`].
pub uninterp spec fn pair_set(s: PairSet) -> Set<(u64, u64)>;

impl View for PairSet {
    type V = Set<(u64, u64)>;

    open spec fn view(&self) -> Set<(u64, u64)> {
        pair_set(*self)
    }
}

impl PairSet {
    /// `hashbrown::HashSet::new`: the empty set.
    #[verifier::external_body]
    pub(crate) fn new() -> (s: PairSet)
        ensures
            pair_set(s) == (Set::<(u64, u64)>::empty()),
    {
        PairSet { inner: hashbrown::HashSet::new() }
    }

    /// `hashbrown::HashSet::insert`: adds the pair and says whether it was new.
    #[verifier::external_body]
    pub(crate) fn insert(&mut self, p: (u64, u64)) -> (b: bool)
        ensures
            final(self)@ == old(self)@.insert(p),
            b == !old(self)@.contains(p),
    {
        self.inner.insert(p)
    }
}

/// A set of quadruples of ids.
#[verifier::external_body]
#[derive(Debug)]
pub struct QuadSet {
    inner: hashbrown::HashSet<(u64, u64, u64, u64)>,
}

/// The members of a [`QuadSet`].
pub uninterp spec fn quad_set(s: QuadSet) -> Set<(u64, u64, u64, u64)>;

impl View for QuadSet {
    type V = Set<(u64, u64, u64, u64)>;

    open spec fn view(&self) -> Set<(u64, u64, u64, u64)> {
        quad_set(*self)
    }
}

impl QuadSet {
    /// `hashbrown::HashSet::new`: the empty set.
    #[verifier::external_body]
    pub(crate) fn new() -> (s: QuadSet)
        ensures
            quad_set(s) == (Set::<(u64, u64, u64, u64)>::empty()),
    {
        QuadSet { inner: hashbrown::HashSet::new() }
    }

    /// `hashbrown::HashSet::contains`: whether the quadruple is a member.
    #[verifier::external_body]
    pub(crate) fn contains(&self, q: (u64, u64, u64, u64)) -> (b: bool)
        ensures
            b == self@.contains(q),
    {
        self.inner.contains(&q)
    }

    /// `hashbrown::HashSet::insert`: adds the quadruple and says whether it was new.
    #[verifier::external_body]
    pub(crate) fn insert(&mut self, q: (u64, u64, u64, u64)) -> (b: bool)
        ensures
            final(self)@ == old(self)@.insert(q),
            b == !old(self)@.contains(q),
    {
        self.inner.insert(q)
    }

    /// `hashbrown::HashSet::iter`, collected: every member once, in some order.
    #[verifier::external_body]
    pub(crate) fn members(&self) -> (v: Vec<(u64, u64, u64, u64)>)
        ensures
            v@.no_duplicates(),
            v@.to_set() == self@,
    {
        self.inner.iter().copied().collect()
    }
}

} // verus!
