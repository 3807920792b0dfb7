//! The primitives that run outside SQL.
//!
//! Strings, integers and fractions stand in the database as handles of the pool. Each function
//! here is one primitive on one row: handles in, a handle or a plain value out, and nothing where
//! the row has no result.
use crate::duckdb::integer;
use crate::duckdb::integer::parsed;
use crate::duckdb::ops::{
    bigint_op, bigint_result, bigrat_arity, bigrat_compared, bigrat_op, bigrat_result, fractions,
    number, power_ready, run_bigint, run_bigrat_order, run_bigrat_q, BigintOp, BigratOp,
};
use crate::duckdb::pool::{handle_of, interned, long_at, BaseTy, DuckdbBaseValuePool, PoolState};
use crate::duckdb::rational;
use crate::duckdb::rational::{float_bits, lowest, Rational};
use crate::text::{
    count_occurrences, decimal_i64, occurrences, replace_all, replaced, signed_decimal, str_eq,
    swap_char, swapped,
};
use vstd::prelude::*;
use vstd::string::*;

verus! {

/// The handle that a column's value stands for.
pub open spec fn handle(raw: i64) -> u32 {
    raw as u32
}

/// The handle that a column's value stands for.
pub fn raw_handle(raw: i64) -> (h: u32)
    ensures
        h == handle(raw),
{
    raw as u32
}

/// The pool and the handle once an integer is interned.
pub open spec fn with_int(p: PoolState, z: int) -> (PoolState, Option<i64>) {
    (PoolState { ints: interned(p.ints, z), ..p }, Some(handle_of(p.ints, z) as i64))
}

/// The pool and the handle once a fraction is interned.
pub open spec fn with_rat(p: PoolState, q: (int, int)) -> (PoolState, Option<i64>) {
    (PoolState { rats: interned(p.rats, q), ..p }, Some(handle_of(p.rats, q) as i64))
}

/// The pool and the handle once a string is interned.
pub open spec fn with_string(p: PoolState, s: Seq<char>) -> (PoolState, Option<i64>) {
    (PoolState { strings: interned(p.strings, s), ..p }, Some(handle_of(p.strings, s) as i64))
}

/// What `from-string` gives: the integer that the string stands for.
pub open spec fn from_string_result(p: PoolState, raw: i64) -> (PoolState, Option<i64>) {
    let h = handle(raw) as int;
    if h < p.strings.len() && parsed(p.strings[h]) is Some {
        with_int(p, parsed(p.strings[h])->0)
    } else {
        (p, None)
    }
}

/// `from-string`: the integer that a string stands for; nothing for a handle out of range and for
/// a string that is no numeral.
pub fn from_string(pool: &mut DuckdbBaseValuePool, raw: i64) -> (r: Option<i64>)
    requires
        old(pool).wf(),
        old(pool).has_room(),
    ensures
        final(pool).wf(),
        (final(pool)@, r) == from_string_result(old(pool)@, raw),
{
    let h: u32 = raw_handle(raw);
    if !pool.handle_in_range(BaseTy::Str, h) {
        return None;
    }
    match integer::parse(pool.string_at(h).as_str()) {
        None => None,
        Some(z) => Some(pool.intern_int(z) as i64),
    }
}

/// `bigint`: the integer of any size that is the machine integer.
pub fn bigint(pool: &mut DuckdbBaseValuePool, v: i64) -> (r: i64)
    requires
        old(pool).wf(),
        old(pool).has_room(),
    ensures
        final(pool).wf(),
        (final(pool)@, Some(r)) == with_int(old(pool)@, v as int),
{
    pool.intern_int(integer::widened(v)) as i64
}

/// `bigrat`: the fraction of two integers. Both handles have to be in range and the denominator
/// other than zero.
pub fn bigrat(pool: &mut DuckdbBaseValuePool, numer: i64, denom: i64) -> (r: i64)
    requires
        old(pool).wf(),
        old(pool).has_room(),
        handle(numer) < old(pool)@.ints.len(),
        handle(denom) < old(pool)@.ints.len(),
        old(pool)@.ints[handle(denom) as int] != 0,
    ensures
        final(pool).wf(),
        (final(pool)@, Some(r)) == with_rat(
            old(pool)@,
            lowest(
                old(pool)@.ints[handle(numer) as int],
                old(pool)@.ints[handle(denom) as int],
            ),
        ),
{
    let q = rational::fraction(pool.int_at(raw_handle(numer)), pool.int_at(raw_handle(denom)));
    pool.intern_rat(q) as i64
}

/// The fractions at the handles.
pub open spec fn rats_at(p: PoolState, raws: Seq<i64>) -> Seq<(int, int)> {
    raws.map_values(|raw: i64| p.rats[handle(raw) as int])
}

/// The fractions at the handles, as they are held.
pub open spec fn rationals_at(pool: DuckdbBaseValuePool, raws: Seq<i64>) -> Seq<Rational> {
    raws.map_values(|raw: i64| pool.rational(handle(raw) as int))
}

/// Whether all handles are those of fractions.
pub open spec fn rats_in_range(p: PoolState, raws: Seq<i64>) -> bool {
    forall|i: int| 0 <= i < raws.len() ==> (handle(#[trigger] raws[i]) as int) < p.rats.len()
}

/// Reads the fractions at the handles.
fn read_rats(pool: &DuckdbBaseValuePool, raws: &Vec<i64>) -> (v: Vec<Rational>)
    requires
        pool.wf(),
        rats_in_range(pool@, raws@),
    ensures
        v@.len() == raws@.len(),
        forall|i: int| 0 <= i < v@.len() ==> (#[trigger] v@[i]).wf(),
        forall|i: int|
            0 <= i < v@.len() ==> (#[trigger] v@[i]).size() == rationals_at(*pool, raws@)[i].size(),
        fractions(v@) == rats_at(pool@, raws@),
{
    let mut v: Vec<Rational> = Vec::new();
    let n: usize = raws.len();
    for i in 0..n
        invariant
            n == raws@.len(),
            pool.wf(),
            rats_in_range(pool@, raws@),
            v@.len() == i,
            forall|k: int| 0 <= k < i ==> (#[trigger] v@[k]).wf(),
            forall|k: int|
                0 <= k < i ==> (#[trigger] v@[k]).size() == rationals_at(
                    *pool,
                    raws@,
                )[k].size(),
            forall|k: int| 0 <= k < i ==> (#[trigger] v@[k])@ == rats_at(pool@, raws@)[k],
    {
        let h: u32 = raw_handle(raws[i]);
        v.push(pool.rat_at(h).duplicate());
    }
    assert(fractions(v@) =~= rats_at(pool@, raws@));
    v
}

/// What a primitive from fractions to a fraction gives on handles.
pub open spec fn bigrat_q_result(p: PoolState, op: BigratOp, raws: Seq<i64>) -> (
    PoolState,
    Option<i64>,
) {
    match bigrat_result(op, rats_at(p, raws)) {
        Some(q) => with_rat(p, q),
        None => (p, None),
    }
}

/// Whether a primitive on fractions can be run on the handles.
pub open spec fn bigrat_q_ready(
    pool: DuckdbBaseValuePool,
    op: BigratOp,
    raws: Seq<i64>,
) -> bool {
    &&& raws.len() >= bigrat_arity(op)
    &&& rats_in_range(pool@, raws)
    &&& power_ready(op, rationals_at(pool, raws))
}

/// A primitive from fractions to a fraction.
pub fn bigrat_q(pool: &mut DuckdbBaseValuePool, op: BigratOp, raws: &Vec<i64>) -> (r: Option<i64>)
    requires
        old(pool).wf(),
        old(pool).has_room(),
        op.gives_fraction(),
        bigrat_q_ready(*old(pool), op, raws@),
    ensures
        final(pool).wf(),
        (final(pool)@, r) == bigrat_q_result(old(pool)@, op, raws@),
{
    let args = read_rats(pool, raws);
    proof {
        pool.facts();
        let f = rationals_at(*pool, raws@);
        if op is Pow {
            assert(handle(raws@[0]) < pool@.rats.len());
            assert(handle(raws@[1]) < pool@.rats.len());
            assert(fractions(args@)[0] == args@[0]@);
            assert(fractions(args@)[1] == args@[1]@);
            assert(f[0]@ == args@[0]@ && f[1]@ == args@[1]@);
            assert(args@[0].size() == f[0].size());
        }
    }
    match run_bigrat_q(op, &args) {
        Some(q) => Some(pool.intern_rat(q) as i64),
        None => None,
    }
}

/// A comparison of two fractions.
pub fn bigrat_order(pool: &DuckdbBaseValuePool, op: BigratOp, a: i64, b: i64) -> (r: bool)
    requires
        pool.wf(),
        op.comparison(),
        handle(a) < pool@.rats.len(),
        handle(b) < pool@.rats.len(),
    ensures
        r == bigrat_compared(op, pool@.rats[handle(a) as int], pool@.rats[handle(b) as int]),
{
    run_bigrat_order(op, pool.rat_at(raw_handle(a)), pool.rat_at(raw_handle(b)))
}

/// The numerator or the denominator.
pub open spec fn side(op: BigratOp, q: (int, int)) -> int {
    if op is Numer {
        q.0
    } else {
        q.1
    }
}

/// The numerator or the denominator of a fraction.
pub fn bigrat_side(pool: &mut DuckdbBaseValuePool, op: BigratOp, a: i64) -> (r: i64)
    requires
        old(pool).wf(),
        old(pool).has_room(),
        op.gives_integer(),
        handle(a) < old(pool)@.rats.len(),
    ensures
        final(pool).wf(),
        (final(pool)@, Some(r)) == with_int(
            old(pool)@,
            side(op, old(pool)@.rats[handle(a) as int]),
        ),
{
    let q = pool.rat_at(raw_handle(a));
    let z = match op {
        BigratOp::Numer => q.numer.duplicate(),
        _ => q.denom.duplicate(),
    };
    pool.intern_int(z) as i64
}

/// The bits of the float nearest to a fraction.
pub fn bigrat_to_f64(pool: &DuckdbBaseValuePool, a: i64) -> (r: Option<u64>)
    requires
        pool.wf(),
        handle(a) < pool@.rats.len(),
    ensures
        r == float_bits(pool@.rats[handle(a) as int].0, pool@.rats[handle(a) as int].1),
{
    rational::to_float_bits(pool.rat_at(raw_handle(a)))
}

/// Whether `(p, r)` is what an integer primitive leaves and gives on handles.
pub open spec fn bigint_binary_result(
    p: PoolState,
    op: BigintOp,
    a: i64,
    b: i64,
    p2: PoolState,
    r: Option<i64>,
) -> bool {
    if handle(a) < p.ints.len() && handle(b) < p.ints.len() {
        exists|z: Option<int>| #[trigger]
            bigint_result(op, p.ints[handle(a) as int], p.ints[handle(b) as int], z) && match z {
                Some(n) => (p2, r) == with_int(p, n),
                None => p2 == p && r is None,
            }
    } else {
        p2 == p && r is None
    }
}

/// An integer primitive; nothing for a handle out of range and for a division by zero.
pub fn bigint_binary(pool: &mut DuckdbBaseValuePool, op: BigintOp, a: i64, b: i64) -> (r: Option<
    i64,
>)
    requires
        old(pool).wf(),
        old(pool).has_room(),
    ensures
        final(pool).wf(),
        bigint_binary_result(old(pool)@, op, a, b, final(pool)@, r),
{
    let x: u32 = raw_handle(a);
    let y: u32 = raw_handle(b);
    if !pool.handle_in_range(BaseTy::BigInt, x) || !pool.handle_in_range(BaseTy::BigInt, y) {
        return None;
    }
    let z = run_bigint(op, pool.int_at(x), pool.int_at(y));
    let ghost n = number(z);
    assert(bigint_result(op, pool@.ints[x as int], pool@.ints[y as int], n));
    match z {
        Some(v) => Some(pool.intern_int(v) as i64),
        None => None,
    }
}

/// The strings at the handles, one behind the other.
pub open spec fn concatenated(p: PoolState, raws: Seq<i64>) -> Seq<char>
    decreases raws.len(),
{
    if raws.len() == 0 {
        Seq::empty()
    } else {
        concatenated(p, raws.drop_last()) + p.strings[handle(raws.last()) as int]
    }
}

/// Whether all handles are those of strings.
pub open spec fn strings_in_range(p: PoolState, raws: Seq<i64>) -> bool {
    forall|i: int| 0 <= i < raws.len() ==> (handle(#[trigger] raws[i]) as int) < p.strings.len()
}

/// `string-concat`: the strings, one behind the other.
pub fn string_concat(pool: &mut DuckdbBaseValuePool, raws: &Vec<i64>) -> (r: i64)
    requires
        old(pool).wf(),
        old(pool).has_room(),
        strings_in_range(old(pool)@, raws@),
    ensures
        final(pool).wf(),
        (final(pool)@, Some(r)) == with_string(old(pool)@, concatenated(old(pool)@, raws@)),
{
    let mut buf = String::new();
    let n: usize = raws.len();
    assert(raws@.take(0) =~= Seq::<i64>::empty());
    for i in 0..n
        invariant
            n == raws@.len(),
            *pool == *old(pool),
            strings_in_range(pool@, raws@),
            buf@ == concatenated(pool@, raws@.take(i as int)),
    {
        let h: u32 = raw_handle(raws[i]);
        buf.append(pool.string_at(h).as_str());
        assert(raws@.take(i + 1).drop_last() =~= raws@.take(i as int));
    }
    assert(raws@.take(n as int) =~= raws@);
    pool.intern_string(buf) as i64
}

/// `replace`: the first string with each occurrence of the second replaced by the third.
pub fn replace(pool: &mut DuckdbBaseValuePool, hay: i64, needle: i64, by: i64) -> (r: i64)
    requires
        old(pool).wf(),
        old(pool).has_room(),
        handle(hay) < old(pool)@.strings.len(),
        handle(needle) < old(pool)@.strings.len(),
        handle(by) < old(pool)@.strings.len(),
    ensures
        final(pool).wf(),
        (final(pool)@, Some(r)) == with_string(
            old(pool)@,
            replaced(
                old(pool)@.strings[handle(hay) as int],
                old(pool)@.strings[handle(needle) as int],
                old(pool)@.strings[handle(by) as int],
            ),
        ),
{
    let s = replace_all(
        pool.string_at(raw_handle(hay)).as_str(),
        pool.string_at(raw_handle(needle)).as_str(),
        pool.string_at(raw_handle(by)).as_str(),
    );
    pool.intern_string(s) as i64
}

/// `count-matches`: how often the second string occurs in the first; never, where it is empty.
pub fn count_matches(pool: &DuckdbBaseValuePool, hay: i64, needle: i64) -> (r: usize)
    requires
        handle(hay) < pool@.strings.len(),
        handle(needle) < pool@.strings.len(),
    ensures
        r == occurrences(
            pool@.strings[handle(hay) as int],
            pool@.strings[handle(needle) as int],
        ),
{
    count_occurrences(
        pool.string_at(raw_handle(hay)).as_str(),
        pool.string_at(raw_handle(needle)).as_str(),
    )
}

/// `to-string` of a machine integer, given by its handle: the integer itself, where it fits 31
/// bits.
pub fn i64_to_string(pool: &mut DuckdbBaseValuePool, raw: i64) -> (r: i64)
    requires
        old(pool).wf(),
        old(pool).has_room(),
        long_at(old(pool)@, handle(raw)) is Some,
    ensures
        final(pool).wf(),
        (final(pool)@, Some(r)) == with_string(
            old(pool)@,
            signed_decimal(long_at(old(pool)@, handle(raw))->0 as int),
        ),
{
    let v: i64 = pool.i64_at(raw_handle(raw));
    pool.intern_string(decimal_i64(v)) as i64
}

/// What `to-string` of an integer of any size gives.
pub open spec fn bigint_to_string_result(p: PoolState, raw: i64) -> (PoolState, Option<i64>) {
    let h = handle(raw) as int;
    if h < p.ints.len() {
        with_string(p, signed_decimal(p.ints[h]))
    } else {
        (p, None)
    }
}

/// `to-string` of an integer of any size; nothing for a handle out of range.
pub fn bigint_to_string(pool: &mut DuckdbBaseValuePool, raw: i64) -> (r: Option<i64>)
    requires
        old(pool).wf(),
        old(pool).has_room(),
    ensures
        final(pool).wf(),
        (final(pool)@, r) == bigint_to_string_result(old(pool)@, raw),
{
    let h: u32 = raw_handle(raw);
    if !pool.handle_in_range(BaseTy::BigInt, h) {
        return None;
    }
    let s = integer::print(pool.int_at(h));
    Some(pool.intern_string(s) as i64)
}

/// Printing an integer and parsing what comes out gives its handle back.
pub proof fn from_string_of_to_string(p: PoolState, raw: i64)
    requires
        0 <= handle(raw) < p.ints.len(),
        p.ints.no_duplicates(),
        p.strings.len() < u32::MAX,
    ensures
        ({
            let (p1, s) = bigint_to_string_result(p, raw);
            s is Some && from_string_result(p1, s->0) == (p1, Some(handle(raw) as i64))
        }),
{
    let n = p.ints[handle(raw) as int];
    let s = signed_decimal(n);
    integer::parse_of_print(n);
    crate::duckdb::pool::interning_gives_back(p.strings, s);
    assert(p.ints.contains(n));
    let k = p.ints.index_of(n);
    assert(0 <= k < p.ints.len() && p.ints[k] == n);
}

/// How a primitive's function is run.
#[derive(Clone, Copy, Debug, PartialEq, Eq, Structural)]
pub enum UdfKind {
    StringConcat,
    Replace,
    CountMatches,
    I64ToString,
    F64ToString,
    BigIntToString,
    BigintConstructor,
    FromString,
    Bigrat,
    GetSize,
    BigintBinary(BigintOp),
    BigratOrder(BigratOp),
    BigratSide(BigratOp),
    BigratToF64,
    BigratUnary(BigratOp),
    BigratBinary(BigratOp),
}

/// How an operation on fractions is run.
pub open spec fn bigrat_kind(op: BigratOp) -> UdfKind {
    if op.comparison() {
        UdfKind::BigratOrder(op)
    } else if op.gives_integer() {
        UdfKind::BigratSide(op)
    } else if op is ToF64 {
        UdfKind::BigratToF64
    } else if op.unary() {
        UdfKind::BigratUnary(op)
    } else {
        UdfKind::BigratBinary(op)
    }
}

/// The string primitives: the name of the function that runs one, and how.
pub open spec fn string_udf(name: Seq<char>, bigint: bool) -> Option<(Seq<char>, UdfKind)> {
    if name == "string-concat"@ {
        Some(("__egglog_string_concat"@, UdfKind::StringConcat))
    } else if name == "replace"@ {
        Some(("__egglog_replace"@, UdfKind::Replace))
    } else if name == "count-matches"@ {
        Some(("__egglog_count_matches"@, UdfKind::CountMatches))
    } else if name == "i64-to-string"@ {
        Some(("__egglog_i64_to_string"@, UdfKind::I64ToString))
    } else if name == "f64-to-string"@ {
        Some(("__egglog_f64_to_string"@, UdfKind::F64ToString))
    } else if name == "bigint-to-string"@ && bigint {
        Some(("__egglog_bigint_to_string"@, UdfKind::BigIntToString))
    } else {
        None
    }
}

/// The number primitives: the name of the function that runs one, and how.
pub open spec fn number_udf(name: Seq<char>, bigrat: bool) -> Option<(Seq<char>, UdfKind)> {
    if name == "bigint"@ {
        Some(("__egglog_bigint"@, UdfKind::BigintConstructor))
    } else if name == "from-string"@ {
        Some(("__egglog_from_string"@, UdfKind::FromString))
    } else if name == "bigrat"@ {
        if bigrat {
            Some(("__egglog_bigrat"@, UdfKind::Bigrat))
        } else {
            None
        }
    } else if name == "get-size!"@ {
        Some(("__egglog_get_size"@, UdfKind::GetSize))
    } else if bigint_op(name) is Some {
        Some(
            ("__egglog_"@ + swapped(name, '-', '_'), UdfKind::BigintBinary(bigint_op(name)->0)),
        )
    } else if bigrat_op(name) is Some && bigrat {
        Some(("__egglog_"@ + swapped(name, '-', '_'), bigrat_kind(bigrat_op(name)->0)))
    } else {
        None
    }
}

/// The function that a primitive needs, given the types that are registered.
pub open spec fn builtin_udf(name: Seq<char>, types: Seq<BaseTy>) -> Option<
    (Seq<char>, UdfKind),
> {
    let bigint = types.contains(BaseTy::BigInt);
    if types.contains(BaseTy::Str) && string_udf(name, bigint) is Some {
        string_udf(name, bigint)
    } else if bigint {
        number_udf(name, types.contains(BaseTy::BigRat))
    } else {
        None
    }
}

/// The name and kind of a function.
pub open spec fn udf_view(r: Option<(String, UdfKind)>) -> Option<(Seq<char>, UdfKind)> {
    match r {
        Some((s, k)) => Some((s@, k)),
        None => None,
    }
}

/// How an operation on fractions is run.
fn kind_of(op: BigratOp) -> (k: UdfKind)
    ensures
        k == bigrat_kind(op),
{
    if op.is_comparison() {
        UdfKind::BigratOrder(op)
    } else if op.returns_z() {
        UdfKind::BigratSide(op)
    } else if op.returns_f64() {
        UdfKind::BigratToF64
    } else if op.is_unary() {
        UdfKind::BigratUnary(op)
    } else {
        UdfKind::BigratBinary(op)
    }
}

/// The string primitives.
fn plan_string_udf(name: &str, bigint: bool) -> (r: Option<(String, UdfKind)>)
    ensures
        udf_view(r) == string_udf(name@, bigint),
{
    if str_eq(name, "string-concat") {
        Some(("__egglog_string_concat".to_owned(), UdfKind::StringConcat))
    } else if str_eq(name, "replace") {
        Some(("__egglog_replace".to_owned(), UdfKind::Replace))
    } else if str_eq(name, "count-matches") {
        Some(("__egglog_count_matches".to_owned(), UdfKind::CountMatches))
    } else if str_eq(name, "i64-to-string") {
        Some(("__egglog_i64_to_string".to_owned(), UdfKind::I64ToString))
    } else if str_eq(name, "f64-to-string") {
        Some(("__egglog_f64_to_string".to_owned(), UdfKind::F64ToString))
    } else if str_eq(name, "bigint-to-string") && bigint {
        Some(("__egglog_bigint_to_string".to_owned(), UdfKind::BigIntToString))
    } else {
        None
    }
}

/// The number primitives.
fn plan_number_udf(name: &str, bigrat: bool) -> (r: Option<(String, UdfKind)>)
    ensures
        udf_view(r) == number_udf(name@, bigrat),
{
    if str_eq(name, "bigint") {
        return Some(("__egglog_bigint".to_owned(), UdfKind::BigintConstructor));
    }
    if str_eq(name, "from-string") {
        return Some(("__egglog_from_string".to_owned(), UdfKind::FromString));
    }
    if str_eq(name, "bigrat") {
        return if bigrat {
            Some(("__egglog_bigrat".to_owned(), UdfKind::Bigrat))
        } else {
            None
        };
    }
    if str_eq(name, "get-size!") {
        return Some(("__egglog_get_size".to_owned(), UdfKind::GetSize));
    }
    let kind = match BigintOp::from_duck_name(name) {
        Some(op) => UdfKind::BigintBinary(op),
        None => match BigratOp::from_duck_name(name) {
            Some(op) if bigrat => kind_of(op),
            _ => return None,
        },
    };
    let mut udf = "__egglog_".to_owned();
    udf.append(swap_char(name, '-', '_').as_str());
    Some((udf, kind))
}

/// The function that a builtin primitive needs, if it needs one and the types it works on are
/// registered: its name in the database, and how it is run.
pub fn plan_builtin_udf(name: &str, pool: &DuckdbBaseValuePool) -> (r: Option<(String, UdfKind)>)
    requires
        pool.wf(),
    ensures
        udf_view(r) == builtin_udf(name@, pool@.types),
{
    let bigint = pool.has_ty(BaseTy::BigInt);
    if pool.has_ty(BaseTy::Str) {
        let r = plan_string_udf(name, bigint);
        if r.is_some() {
            return r;
        }
    }
    if bigint {
        plan_number_udf(name, pool.has_ty(BaseTy::BigRat))
    } else {
        None
    }
}

} // verus!
