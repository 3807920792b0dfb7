//! The pool of interned base values.
use crate::backend::BaseValueId;
use crate::duckdb::integer::Integer;
use crate::duckdb::rational::Rational;
use vstd::prelude::*;

verus! {

/// A type whose values are interned.
#[derive(Clone, Copy, Debug, PartialEq, Eq, Structural)]
pub enum BaseTy {
    I64,
    Str,
    BigInt,
    BigRat,
    /// The marker of columns that hold a pair of integers.
    Pair,
    /// Any other type, by a number of its own.
    Other(u32),
}

/// Marks the columns that hold a pair of integers. Pairs live in the database's own columns, so
/// no value of it is ever interned.
#[derive(Clone, Debug, Default, PartialEq, Eq, Hash)]
pub struct DuckPairMarker;

/// The interned values. A handle is a value's position in the table of its type; a machine integer
/// that fits 31 bits is its own handle, and the handles of the others have the top bit set.
#[derive(Debug)]
pub struct DuckdbBaseValuePool {
    types: Vec<BaseTy>,
    longs: Vec<i64>,
    strings: Vec<String>,
    ints: Vec<Integer>,
    rats: Vec<Rational>,
}

/// What a pool holds.
#[verifier::ext_equal]
pub struct PoolState {
    pub types: Seq<BaseTy>,
    /// The machine integers that do not fit 31 bits.
    pub longs: Seq<i64>,
    pub strings: Seq<Seq<char>>,
    pub ints: Seq<int>,
    pub rats: Seq<(int, int)>,
}

impl View for DuckdbBaseValuePool {
    type V = PoolState;

    closed spec fn view(&self) -> PoolState {
        PoolState {
            types: self.types@,
            longs: self.longs@,
            strings: self.strings@.map_values(|s: String| s@),
            ints: self.ints@.map_values(|z: Integer| z@),
            rats: self.rats@.map_values(|q: Rational| q@),
        }
    }
}

/// The table once `x` is interned.
pub open spec fn interned<A>(s: Seq<A>, x: A) -> Seq<A> {
    if s.contains(x) {
        s
    } else {
        s.push(x)
    }
}

/// The handle that `x` gets.
pub open spec fn handle_of<A>(s: Seq<A>, x: A) -> int {
    if s.contains(x) {
        s.index_of(x)
    } else {
        s.len() as int
    }
}

/// A handle gives back the value that was interned.
pub proof fn interning_gives_back<A>(s: Seq<A>, x: A)
    ensures
        0 <= handle_of(s, x) < interned(s, x).len(),
        interned(s, x)[handle_of(s, x)] == x,
{
    if s.contains(x) {
        let i = choose|i: int| 0 <= i < s.len() && s[i] == x;
        assert(0 <= s.index_of(x) < s.len() && s[s.index_of(x)] == x);
    }
}

/// Interning a value leaves all the handles that were given out as they were.
pub proof fn interning_keeps_handles<A>(s: Seq<A>, x: A, i: int)
    requires
        0 <= i < s.len(),
    ensures
        interned(s, x)[i] == s[i],
{
}

/// A value that is interned again, whatever was interned between, gets the same handle.
pub proof fn interning_is_stable<A>(s: Seq<A>, x: A, y: A)
    requires
        s.no_duplicates(),
    ensures
        handle_of(interned(interned(s, x), y), x) == handle_of(s, x),
        interned(interned(s, x), y).no_duplicates(),
{
    interning_gives_back(s, x);
    let t = interned(s, x);
    let u = interned(t, y);
    assert(u[handle_of(s, x)] == x);
    assert(u.contains(x));
    let k = u.index_of(x);
    assert(0 <= k < u.len() && u[k] == x);
}

/// How many machine integers are their own handles: those of 31 bits.
pub const UNBOXED: u32 = 0x8000_0000;

/// Whether a machine integer is its own handle.
pub open spec fn fits_unboxed(v: i64) -> bool {
    0 <= v < UNBOXED
}

/// The pool with a machine integer, and its handle.
pub open spec fn with_i64(p: PoolState, v: i64) -> (PoolState, u32) {
    if fits_unboxed(v) {
        (p, v as u32)
    } else {
        (
            PoolState { longs: interned(p.longs, v), ..p },
            (UNBOXED + handle_of(p.longs, v)) as u32,
        )
    }
}

/// The machine integer that a handle stands for, if any.
pub open spec fn long_at(p: PoolState, h: u32) -> Option<i64> {
    if h < UNBOXED {
        Some(h as i64)
    } else if h - UNBOXED < p.longs.len() {
        Some(p.longs[h - UNBOXED])
    } else {
        None
    }
}

/// A type's identifier: its position among the registered types.
pub open spec fn type_handle(p: PoolState, ty: BaseTy) -> Option<int> {
    if p.types.contains(ty) {
        Some(p.types.index_of(ty))
    } else {
        None
    }
}

impl DuckdbBaseValuePool {
    /// No value stands in a table twice, and the numbers are well formed.
    pub closed spec fn wf(self) -> bool {
        &&& self@.types.no_duplicates()
        &&& self@.longs.no_duplicates()
        &&& self@.strings.no_duplicates()
        &&& self@.ints.no_duplicates()
        &&& self@.rats.no_duplicates()
        &&& forall|i: int| 0 <= i < self.ints@.len() ==> (#[trigger] self.ints@[i]).wf()
        &&& forall|i: int| 0 <= i < self.rats@.len() ==> (#[trigger] self.rats@[i]).wf()
        &&& self.types@.len() <= u32::MAX
        &&& self.longs@.len() <= UNBOXED
        &&& self.strings@.len() <= u32::MAX
        &&& self.ints@.len() <= u32::MAX
        &&& self.rats@.len() <= u32::MAX
    }

    /// Each table has a handle left.
    pub open spec fn has_room(self) -> bool {
        &&& self@.types.len() < u32::MAX
        &&& self@.longs.len() < UNBOXED
        &&& self@.strings.len() < u32::MAX
        &&& self@.ints.len() < u32::MAX
        &&& self@.rats.len() < u32::MAX
    }

    /// The fraction at a handle.
    pub closed spec fn rational(self, h: int) -> Rational {
        self.rats@[h]
    }

    /// What a well-formed pool promises.
    pub proof fn facts(self)
        requires
            self.wf(),
        ensures
            self@.types.no_duplicates(),
            self@.strings.no_duplicates(),
            self@.ints.no_duplicates(),
            self@.rats.no_duplicates(),
            forall|h: int| #![trigger self.rational(h)] 0 <= h < self@.rats.len() ==> self.rational(
                h,
            ).wf() && self.rational(h)@ == self@.rats[h],
    {
    }

    /// An empty pool.
    pub fn new() -> (p: DuckdbBaseValuePool)
        ensures
            p.wf(),
            p@ == (PoolState {
                types: Seq::empty(),
                longs: Seq::empty(),
                strings: Seq::empty(),
                ints: Seq::empty(),
                rats: Seq::empty(),
            }),
    {
        let p = DuckdbBaseValuePool {
            types: Vec::new(),
            longs: Vec::new(),
            strings: Vec::new(),
            ints: Vec::new(),
            rats: Vec::new(),
        };
        assert(p@.types =~= Seq::empty());
        assert(p@.strings =~= Seq::empty());
        assert(p@.ints =~= Seq::empty());
        assert(p@.rats =~= Seq::empty());
        p
    }

    /// Whether each table has a handle left.
    pub fn room_left(&self) -> (b: bool)
        ensures
            b == self.has_room(),
    {
        self.types.len() < u32::MAX as usize && self.longs.len() < UNBOXED as usize
            && self.strings.len() < u32::MAX as usize
            && self.ints.len() < u32::MAX as usize && self.rats.len() < u32::MAX as usize
    }

    /// The identifier of a registered type.
    pub fn type_id(&self, ty: BaseTy) -> (r: Option<BaseValueId>)
        requires
            self.wf(),
        ensures
            r is Some <==> self@.types.contains(ty),
            r is Some ==> type_handle(self@, ty) == Some(r->0.rep as int),
    {
        let n: usize = self.types.len();
        for i in 0..n
            invariant
                n == self.types@.len(),
                self.wf(),
                forall|k: int| 0 <= k < i ==> self.types@[k] != ty,
        {
            if self.types[i] == ty {
                proof {
                    assert(self@.types[i as int] == ty);
                    let k = self@.types.index_of(ty);
                    assert(0 <= k < self@.types.len() && self@.types[k] == ty);
                }
                return Some(BaseValueId::new(i as u32));
            }
        }
        None
    }

    /// Whether a type is registered.
    pub fn has_ty(&self, ty: BaseTy) -> (b: bool)
        requires
            self.wf(),
        ensures
            b == self@.types.contains(ty),
    {
        self.type_id(ty).is_some()
    }

    /// Registers a type, if it is not yet, and gives its identifier.
    pub fn register_type(&mut self, ty: BaseTy) -> (r: BaseValueId)
        requires
            old(self).wf(),
            old(self).has_room(),
        ensures
            final(self).wf(),
            final(self)@ == (PoolState { types: interned(old(self)@.types, ty), ..old(self)@ }),
            r.rep == handle_of(old(self)@.types, ty),
    {
        match self.type_id(ty) {
            Some(id) => id,
            None => {
                let id: usize = self.types.len();
                self.types.push(ty);
                BaseValueId::new(id as u32)
            },
        }
    }

    /// The handle of a machine integer, which is interned where it does not fit 31 bits.
    pub fn intern_i64(&mut self, v: i64) -> (r: u32)
        requires
            old(self).wf(),
            old(self).has_room(),
        ensures
            final(self).wf(),
            (final(self)@, r) == with_i64(old(self)@, v),
    {
        if 0 <= v && v < UNBOXED as i64 {
            return v as u32;
        }
        let n: usize = self.longs.len();
        for i in 0..n
            invariant
                n == self.longs@.len(),
                *self == *old(self),
                self.wf(),
                !fits_unboxed(v),
                forall|k: int| 0 <= k < i ==> self.longs@[k] != v,
        {
            if self.longs[i] == v {
                proof {
                    assert(self@.longs[i as int] == v);
                    let k = self@.longs.index_of(v);
                    assert(0 <= k < self@.longs.len() && self@.longs[k] == v);
                }
                return UNBOXED + i as u32;
            }
        }
        self.longs.push(v);
        UNBOXED + n as u32
    }

    /// The machine integer that a handle stands for.
    pub fn i64_at(&self, h: u32) -> (v: i64)
        requires
            long_at(self@, h) is Some,
        ensures
            long_at(self@, h) == Some(v),
    {
        if h < UNBOXED {
            h as i64
        } else {
            self.longs[(h - UNBOXED) as usize]
        }
    }

    /// Interns a string.
    pub fn intern_string(&mut self, s: String) -> (r: u32)
        requires
            old(self).wf(),
            old(self).has_room(),
        ensures
            final(self).wf(),
            final(self)@ == (PoolState { strings: interned(old(self)@.strings, s@), ..old(self)@ }),
            r == handle_of(old(self)@.strings, s@),
    {
        let n: usize = self.strings.len();
        for i in 0..n
            invariant
                n == self.strings@.len(),
                *self == *old(self),
                self.wf(),
                forall|k: int| 0 <= k < i ==> #[trigger] self@.strings[k] != s@,
        {
            if self.strings[i] == s {
                proof {
                    assert(self@.strings[i as int] == s@);
                    let k = self@.strings.index_of(s@);
                    assert(0 <= k < self@.strings.len() && self@.strings[k] == s@);
                }
                return i as u32;
            }
        }
        self.strings.push(s);
        assert(self@.strings =~= old(self)@.strings.push(s@));
        n as u32
    }

    /// Interns an integer.
    pub fn intern_int(&mut self, z: Integer) -> (r: u32)
        requires
            old(self).wf(),
            old(self).has_room(),
            z.wf(),
        ensures
            final(self).wf(),
            final(self)@ == (PoolState { ints: interned(old(self)@.ints, z@), ..old(self)@ }),
            r == handle_of(old(self)@.ints, z@),
    {
        let n: usize = self.ints.len();
        for i in 0..n
            invariant
                n == self.ints@.len(),
                *self == *old(self),
                self.wf(),
                z.wf(),
                forall|k: int| 0 <= k < i ==> #[trigger] self@.ints[k] != z@,
        {
            if self.ints[i].same(&z) {
                proof {
                    assert(self@.ints[i as int] == z@);
                    let k = self@.ints.index_of(z@);
                    assert(0 <= k < self@.ints.len() && self@.ints[k] == z@);
                }
                return i as u32;
            }
        }
        self.ints.push(z);
        assert(self@.ints =~= old(self)@.ints.push(z@));
        n as u32
    }

    /// Interns a fraction.
    pub fn intern_rat(&mut self, q: Rational) -> (r: u32)
        requires
            old(self).wf(),
            old(self).has_room(),
            q.wf(),
        ensures
            final(self).wf(),
            final(self)@ == (PoolState { rats: interned(old(self)@.rats, q@), ..old(self)@ }),
            r == handle_of(old(self)@.rats, q@),
    {
        let n: usize = self.rats.len();
        for i in 0..n
            invariant
                n == self.rats@.len(),
                *self == *old(self),
                self.wf(),
                q.wf(),
                forall|k: int| 0 <= k < i ==> #[trigger] self@.rats[k] != q@,
        {
            if self.rats[i].same(&q) {
                proof {
                    assert(self@.rats[i as int] == q@);
                    let k = self@.rats.index_of(q@);
                    assert(0 <= k < self@.rats.len() && self@.rats[k] == q@);
                }
                return i as u32;
            }
        }
        self.rats.push(q);
        assert(self@.rats =~= old(self)@.rats.push(q@));
        n as u32
    }

    /// How many handles of a type are in range.
    pub open spec fn range(p: PoolState, ty: BaseTy) -> int {
        match ty {
            BaseTy::I64 => UNBOXED + p.longs.len(),
            BaseTy::Str => p.strings.len() as int,
            BaseTy::BigInt => p.ints.len() as int,
            BaseTy::BigRat => p.rats.len() as int,
            _ => 0,
        }
    }

    /// Whether a handle of a type stands for a value.
    pub fn handle_in_range(&self, ty: BaseTy, h: u32) -> (b: bool)
        ensures
            b == (h < DuckdbBaseValuePool::range(self@, ty)),
    {
        match ty {
            BaseTy::I64 => h < UNBOXED || ((h - UNBOXED) as usize) < self.longs.len(),
            BaseTy::Str => (h as usize) < self.strings.len(),
            BaseTy::BigInt => (h as usize) < self.ints.len(),
            BaseTy::BigRat => (h as usize) < self.rats.len(),
            _ => false,
        }
    }

    /// The string at a handle.
    pub fn string_at(&self, h: u32) -> (s: &String)
        requires
            h < self@.strings.len(),
        ensures
            s@ == self@.strings[h as int],
    {
        &self.strings[h as usize]
    }

    /// The integer at a handle.
    pub fn int_at(&self, h: u32) -> (z: &Integer)
        requires
            self.wf(),
            h < self@.ints.len(),
        ensures
            z.wf(),
            z@ == self@.ints[h as int],
    {
        &self.ints[h as usize]
    }

    /// The fraction at a handle.
    pub fn rat_at(&self, h: u32) -> (q: &Rational)
        requires
            self.wf(),
            h < self@.rats.len(),
        ensures
            q.wf(),
            *q == self.rational(h as int),
            q@ == self@.rats[h as int],
    {
        &self.rats[h as usize]
    }
}

} // verus!
