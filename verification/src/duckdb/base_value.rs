//! Base values of any type in the pool.
use crate::backend::{BaseValueId, Value};
use crate::duckdb::integer::Integer;
use crate::duckdb::pool::{
    fits_unboxed, handle_of, interned, interning_gives_back, interning_keeps_handles, long_at,
    type_handle, with_i64, BaseTy, DuckdbBaseValuePool, PoolState,
};
use crate::duckdb::rational::Rational;
use vstd::prelude::*;
use vstd::string::*;

verus! {

/// A type whose values the pool interns.
pub trait BaseValue: View + Sized {
    /// The type.
    spec fn base_ty() -> BaseTy;

    /// Whether a value is well formed.
    spec fn valid(&self) -> bool;

    /// Whether a value is its own handle, and is never interned.
    spec fn is_inline(v: Self::V) -> bool;

    /// The pool with a value, and its handle.
    spec fn stored(p: PoolState, v: Self::V) -> (PoolState, u32);

    /// The value that a handle stands for, if any.
    spec fn read(p: PoolState, h: u32) -> Option<Self::V>;

    /// A value that is stored is read back.
    proof fn reads_back(pool: DuckdbBaseValuePool, v: Self::V)
        requires
            pool.wf(),
            pool.has_room(),
        ensures
            ({
                let (p, h) = Self::stored(pool@, v);
                Self::read(p, h) == Some(v)
            }),
    ;

    /// Storing a value keeps what every handle stands for, and the registered types.
    proof fn keeps_others(p: PoolState, v: Self::V, h: u32)
        ensures
            Self::read(p, h) is Some ==> Self::read(Self::stored(p, v).0, h) == Self::read(p, h),
            Self::stored(p, v).0.types == p.types,
            Self::is_inline(v) ==> Self::stored(p, v).0 == p,
    ;

    /// The type.
    fn ty() -> (t: BaseTy)
        ensures
            t == Self::base_ty(),
    ;

    /// Stores the value.
    fn store(self, pool: &mut DuckdbBaseValuePool) -> (h: u32)
        requires
            self.valid(),
            old(pool).wf(),
            old(pool).has_room(),
        ensures
            final(pool).wf(),
            (final(pool)@, h) == Self::stored(old(pool)@, self@),
    ;

    /// The value that a handle stands for.
    fn load(pool: &DuckdbBaseValuePool, h: u32) -> (v: Self)
        requires
            pool.wf(),
            Self::read(pool@, h) is Some,
        ensures
            v.valid(),
            Self::read(pool@, h) == Some(v@),
    ;
}

impl BaseValue for i64 {
    open spec fn base_ty() -> BaseTy {
        BaseTy::I64
    }

    open spec fn valid(&self) -> bool {
        true
    }

    open spec fn is_inline(v: i64) -> bool {
        fits_unboxed(v)
    }

    open spec fn stored(p: PoolState, v: i64) -> (PoolState, u32) {
        with_i64(p, v)
    }

    open spec fn read(p: PoolState, h: u32) -> Option<i64> {
        long_at(p, h)
    }

    proof fn reads_back(pool: DuckdbBaseValuePool, v: i64) {
        interning_gives_back(pool@.longs, v);
    }

    proof fn keeps_others(p: PoolState, v: i64, h: u32) {
    }

    fn ty() -> BaseTy {
        BaseTy::I64
    }

    fn store(self, pool: &mut DuckdbBaseValuePool) -> u32 {
        pool.intern_i64(self)
    }

    fn load(pool: &DuckdbBaseValuePool, h: u32) -> i64 {
        pool.i64_at(h)
    }
}

/// The value at a position of a table, if any.
pub open spec fn at<A>(s: Seq<A>, h: u32) -> Option<A> {
    if h < s.len() {
        Some(s[h as int])
    } else {
        None
    }
}

impl BaseValue for String {
    open spec fn base_ty() -> BaseTy {
        BaseTy::Str
    }

    open spec fn valid(&self) -> bool {
        true
    }

    open spec fn is_inline(v: Seq<char>) -> bool {
        false
    }

    open spec fn stored(p: PoolState, v: Seq<char>) -> (PoolState, u32) {
        (PoolState { strings: interned(p.strings, v), ..p }, handle_of(p.strings, v) as u32)
    }

    open spec fn read(p: PoolState, h: u32) -> Option<Seq<char>> {
        at(p.strings, h)
    }

    proof fn reads_back(pool: DuckdbBaseValuePool, v: Seq<char>) {
        interning_gives_back(pool@.strings, v);
    }

    proof fn keeps_others(p: PoolState, v: Seq<char>, h: u32) {
        if h < p.strings.len() {
            interning_keeps_handles(p.strings, v, h as int);
        }
    }

    fn ty() -> BaseTy {
        BaseTy::Str
    }

    fn store(self, pool: &mut DuckdbBaseValuePool) -> u32 {
        pool.intern_string(self)
    }

    fn load(pool: &DuckdbBaseValuePool, h: u32) -> String {
        pool.string_at(h).as_str().to_owned()
    }
}

impl BaseValue for Integer {
    open spec fn base_ty() -> BaseTy {
        BaseTy::BigInt
    }

    open spec fn valid(&self) -> bool {
        self.wf()
    }

    open spec fn is_inline(v: int) -> bool {
        false
    }

    open spec fn stored(p: PoolState, v: int) -> (PoolState, u32) {
        (PoolState { ints: interned(p.ints, v), ..p }, handle_of(p.ints, v) as u32)
    }

    open spec fn read(p: PoolState, h: u32) -> Option<int> {
        at(p.ints, h)
    }

    proof fn reads_back(pool: DuckdbBaseValuePool, v: int) {
        interning_gives_back(pool@.ints, v);
    }

    proof fn keeps_others(p: PoolState, v: int, h: u32) {
        if h < p.ints.len() {
            interning_keeps_handles(p.ints, v, h as int);
        }
    }

    fn ty() -> BaseTy {
        BaseTy::BigInt
    }

    fn store(self, pool: &mut DuckdbBaseValuePool) -> u32 {
        pool.intern_int(self)
    }

    fn load(pool: &DuckdbBaseValuePool, h: u32) -> Integer {
        pool.int_at(h).duplicate()
    }
}

impl BaseValue for Rational {
    open spec fn base_ty() -> BaseTy {
        BaseTy::BigRat
    }

    open spec fn valid(&self) -> bool {
        self.wf()
    }

    open spec fn is_inline(v: (int, int)) -> bool {
        false
    }

    open spec fn stored(p: PoolState, v: (int, int)) -> (PoolState, u32) {
        (PoolState { rats: interned(p.rats, v), ..p }, handle_of(p.rats, v) as u32)
    }

    open spec fn read(p: PoolState, h: u32) -> Option<(int, int)> {
        at(p.rats, h)
    }

    proof fn reads_back(pool: DuckdbBaseValuePool, v: (int, int)) {
        interning_gives_back(pool@.rats, v);
    }

    proof fn keeps_others(p: PoolState, v: (int, int), h: u32) {
        if h < p.rats.len() {
            interning_keeps_handles(p.rats, v, h as int);
        }
    }

    fn ty() -> BaseTy {
        BaseTy::BigRat
    }

    fn store(self, pool: &mut DuckdbBaseValuePool) -> u32 {
        pool.intern_rat(self)
    }

    fn load(pool: &DuckdbBaseValuePool, h: u32) -> Rational {
        pool.rat_at(h).duplicate()
    }
}

/// Registers a type with the pool, if it is not yet, and gives its identifier.
pub fn pool_register_type<T: BaseValue>(pool: &mut DuckdbBaseValuePool) -> (id: BaseValueId)
    requires
        old(pool).wf(),
        old(pool).has_room(),
    ensures
        final(pool).wf(),
        final(pool)@ == (PoolState {
            types: interned(old(pool)@.types, T::base_ty()),
            ..old(pool)@
        }),
        id.rep == handle_of(old(pool)@.types, T::base_ty()),
{
    pool.register_type(T::ty())
}

/// The identifier of a registered type.
pub fn pool_get_ty<T: BaseValue>(pool: &DuckdbBaseValuePool) -> (id: BaseValueId)
    requires
        pool.wf(),
        pool@.types.contains(T::base_ty()),
    ensures
        type_handle(pool@, T::base_ty()) == Some(id.rep as int),
{
    match pool.type_id(T::ty()) {
        Some(id) => id,
        None => BaseValueId::new(0),
    }
}

/// The handle of a value, which is interned unless it is its own handle.
pub fn pool_get<T: BaseValue>(pool: &mut DuckdbBaseValuePool, value: T) -> (v: Value)
    requires
        value.valid(),
        old(pool).wf(),
        old(pool).has_room(),
        T::is_inline(value@) || old(pool)@.types.contains(T::base_ty()),
    ensures
        final(pool).wf(),
        (final(pool)@, v.rep) == T::stored(old(pool)@, value@),
{
    Value::new(value.store(pool))
}

/// The value that a handle stands for.
pub fn pool_unwrap<T: BaseValue>(pool: &DuckdbBaseValuePool, val: Value) -> (v: T)
    requires
        pool.wf(),
        T::read(pool@, val.rep) is Some,
    ensures
        v.valid(),
        T::read(pool@, val.rep) == Some(v@),
{
    T::load(pool, val.rep)
}

/// Unwrapping the handle of a value gives the value back, whatever its type.
pub proof fn unwrap_of_get<T: BaseValue>(pool: DuckdbBaseValuePool, v: T::V)
    requires
        pool.wf(),
        pool.has_room(),
    ensures
        ({
            let (p, h) = T::stored(pool@, v);
            T::read(p, h) == Some(v)
        }),
{
    T::reads_back(pool, v);
}

/// Unwrapping a handle gives the same value after another value of its type has been interned.
pub proof fn unwrap_after_get<T: BaseValue>(pool: DuckdbBaseValuePool, v: T::V, h: u32)
    requires
        T::read(pool@, h) is Some,
    ensures
        T::read(T::stored(pool@, v).0, h) == T::read(pool@, h),
{
    T::keeps_others(pool@, v, h);
}

} // verus!
