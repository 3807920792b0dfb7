//! Primitive calls on literals, folded to a literal.
use crate::duckdb::ops::{bigrat_compared, bigrat_op, bigrat_result, power_ready, BigratOp};
use crate::duckdb::pool::{
    handle_of, interned, interning_gives_back, interning_is_stable, BaseTy, DuckdbBaseValuePool,
    PoolState,
};
use crate::duckdb::rational::{float_bits, lowest};
use crate::duckdb::rules::{Literal, Term};
use crate::duckdb::udf::{
    bigrat, bigrat_order, bigrat_q, bigrat_q_result, bigrat_side, bigrat_to_f64, from_string,
    from_string_result, handle, raw_handle, rationals_at, rats_at, rats_in_range, side, with_int, with_rat,
};
use crate::text::str_eq;
use vstd::prelude::*;

verus! {

/// The integer literal at a position of the arguments.
pub open spec fn lit_at(args: Seq<Term>, i: int) -> Option<i64> {
    if i < args.len() {
        args[i].lit()
    } else {
        None
    }
}

/// The pool, and the handle as a literal.
pub open spec fn as_literal(r: (PoolState, Option<i64>)) -> (PoolState, Option<Term>) {
    match r.1 {
        Some(h) => (r.0, Some(Term::Lit(Literal::I64(h)))),
        None => (r.0, None),
    }
}

/// What an operation on fractions folds to.
pub open spec fn folded_op(p: PoolState, op: BigratOp, args: Seq<Term>) -> (
    PoolState,
    Option<Term>,
) {
    let a = lit_at(args, 0);
    let b = lit_at(args, 1);
    if !p.types.contains(BaseTy::BigRat) || a is None || (!op.unary() && b is None) {
        (p, None)
    } else {
        let qa = p.rats[handle(a->0) as int];
        if op.comparison() {
            let qb = p.rats[handle(b->0) as int];
            (p, Some(Term::Lit(Literal::Bool(bigrat_compared(op, qa, qb)))))
        } else if op.gives_integer() {
            as_literal(with_int(p, side(op, qa)))
        } else if op is ToF64 {
            match float_bits(qa.0, qa.1) {
                Some(bits) => (p, Some(Term::Lit(Literal::F64(bits)))),
                None => (p, None),
            }
        } else if op.unary() {
            as_literal(bigrat_q_result(p, op, seq![a->0]))
        } else {
            as_literal(bigrat_q_result(p, op, seq![a->0, b->0]))
        }
    }
}

/// What a primitive call folds to, and the pool that is left.
pub open spec fn folded(p: PoolState, name: Seq<char>, args: Seq<Term>) -> (
    PoolState,
    Option<Term>,
) {
    let a = lit_at(args, 0);
    let b = lit_at(args, 1);
    if !p.types.contains(BaseTy::BigInt) {
        (p, None)
    } else if name == "from-string"@ {
        if a is Some && p.types.contains(BaseTy::Str) {
            as_literal(from_string_result(p, a->0))
        } else {
            (p, None)
        }
    } else if name == "bigrat"@ {
        if a is Some && b is Some && p.types.contains(BaseTy::BigRat) {
            as_literal(
                with_rat(
                    p,
                    lowest(p.ints[handle(a->0) as int], p.ints[handle(b->0) as int]),
                ),
            )
        } else {
            (p, None)
        }
    } else {
        match bigrat_op(name) {
            Some(op) => folded_op(p, op, args),
            None => (p, None),
        }
    }
}

/// Whether an operation on fractions can be run on the literals among its arguments.
pub open spec fn op_ready(pool: DuckdbBaseValuePool, op: BigratOp, args: Seq<Term>) -> bool {
    let p = pool@;
    let a = lit_at(args, 0);
    let b = lit_at(args, 1);
    p.types.contains(BaseTy::BigRat) && a is Some ==> {
        &&& handle(a->0) < p.rats.len()
        &&& !op.unary() && b is Some ==> {
            &&& handle(b->0) < p.rats.len()
            &&& power_ready(op, rationals_at(pool, seq![a->0, b->0]))
        }
    }
}

/// Whether the literals among the arguments are such that the call can be run: their handles are
/// in range, no denominator is zero, and a power fits in memory.
pub open spec fn fold_ready(
    pool: DuckdbBaseValuePool,
    name: Seq<char>,
    args: Seq<Term>,
) -> bool {
    let p = pool@;
    let a = lit_at(args, 0);
    let b = lit_at(args, 1);
    p.types.contains(BaseTy::BigInt) ==> {
        if name == "from-string"@ {
            a is Some && p.types.contains(BaseTy::Str) ==> handle(a->0) < p.strings.len()
        } else if name == "bigrat"@ {
            a is Some && b is Some ==> {
                &&& handle(a->0) < p.ints.len()
                &&& handle(b->0) < p.ints.len()
                &&& p.ints[handle(b->0) as int] != 0
            }
        } else {
            bigrat_op(name) is Some ==> op_ready(pool, bigrat_op(name)->0, args)
        }
    }
}

/// The integer literal at a position of the arguments.
fn literal_at(args: &Vec<Term>, i: usize) -> (r: Option<i64>)
    ensures
        r == lit_at(args@, i as int),
{
    if i < args.len() {
        args[i].as_i64()
    } else {
        None
    }
}

/// Whether an operation on fractions can be run on the literals among its arguments.
fn op_can_run(pool: &DuckdbBaseValuePool, op: BigratOp, args: &Vec<Term>) -> (r: bool)
    requires
        pool.wf(),
    ensures
        r == op_ready(*pool, op, args@),
{
    if !pool.has_ty(BaseTy::BigRat) {
        return true;
    }
    let a = match literal_at(args, 0) {
        Some(a) => a,
        None => return true,
    };
    if !pool.handle_in_range(BaseTy::BigRat, raw_handle(a)) {
        return false;
    }
    if op.is_unary() {
        return true;
    }
    let b = match literal_at(args, 1) {
        Some(b) => b,
        None => return true,
    };
    if !pool.handle_in_range(BaseTy::BigRat, raw_handle(b)) {
        return false;
    }
    if op != BigratOp::Pow {
        return true;
    }
    let x = pool.rat_at(raw_handle(a));
    let y = pool.rat_at(raw_handle(b));
    proof {
        let f = rationals_at(*pool, seq![a, b]);
        assert(f[0] == *x && f[1] == *y);
    }
    if !y.is_integer() || x.is_zero() {
        return true;
    }
    match y.numer.absolute().to_i64() {
        None => true,
        Some(e) => x.can_raise(e as u64),
    }
}

/// Whether the literals among the arguments are such that the call can be run.
pub fn can_fold(pool: &DuckdbBaseValuePool, name: &str, args: &Vec<Term>) -> (r: bool)
    requires
        pool.wf(),
    ensures
        r == fold_ready(*pool, name@, args@),
{
    if !pool.has_ty(BaseTy::BigInt) {
        return true;
    }
    let a = literal_at(args, 0);
    let b = literal_at(args, 1);
    if str_eq(name, "from-string") {
        match a {
            Some(h) => !pool.has_ty(BaseTy::Str) || pool.handle_in_range(
                BaseTy::Str,
                raw_handle(h),
            ),
            None => true,
        }
    } else if str_eq(name, "bigrat") {
        match (a, b) {
            (Some(n), Some(d)) => pool.handle_in_range(BaseTy::BigInt, raw_handle(n))
                && pool.handle_in_range(BaseTy::BigInt, raw_handle(d)) && !pool.int_at(
                raw_handle(d),
            ).is_zero(),
            _ => true,
        }
    } else {
        match BigratOp::from_duck_name(name) {
            Some(op) => op_can_run(pool, op, args),
            None => true,
        }
    }
}

/// The handle as a literal.
fn literal(h: Option<i64>) -> (t: Option<Term>)
    ensures
        forall|p: PoolState| #[trigger] as_literal((p, h)) == (p, t),
{
    match h {
        Some(v) => Some(Term::Lit(Literal::I64(v))),
        None => None,
    }
}

/// Folds an operation on fractions.
fn fold_op(pool: &mut DuckdbBaseValuePool, op: BigratOp, args: &Vec<Term>) -> (r: Option<Term>)
    requires
        old(pool).wf(),
        old(pool).has_room(),
        op_ready(*old(pool), op, args@),
    ensures
        final(pool).wf(),
        (final(pool)@, r) == folded_op(old(pool)@, op, args@),
{
    if !pool.has_ty(BaseTy::BigRat) {
        return None;
    }
    let a = match literal_at(args, 0) {
        Some(a) => a,
        None => return None,
    };
    if op.returns_z() {
        return literal(Some(bigrat_side(pool, op, a)));
    }
    if op.returns_f64() {
        return match bigrat_to_f64(pool, a) {
            Some(bits) => Some(Term::Lit(Literal::F64(bits))),
            None => None,
        };
    }
    if op.is_unary() {
        let mut raws: Vec<i64> = Vec::new();
        raws.push(a);
        assert(raws@ =~= seq![a]);
        return literal(bigrat_q(pool, op, &raws));
    }
    let b = match literal_at(args, 1) {
        Some(b) => b,
        None => return None,
    };
    if op.is_comparison() {
        return Some(Term::Lit(Literal::Bool(bigrat_order(pool, op, a, b))));
    }
    let mut raws: Vec<i64> = Vec::new();
    raws.push(a);
    raws.push(b);
    assert(raws@ =~= seq![a, b]);
    literal(bigrat_q(pool, op, &raws))
}

/// Folds a primitive call: where its arguments are literals and the primitive is one that can be
/// run at once, the result as a literal.
pub fn fold_prim(pool: &mut DuckdbBaseValuePool, name: &str, args: &Vec<Term>) -> (r: Option<Term>)
    requires
        old(pool).wf(),
        old(pool).has_room(),
        fold_ready(*old(pool), name@, args@),
    ensures
        final(pool).wf(),
        (final(pool)@, r) == folded(old(pool)@, name@, args@),
{
    if !pool.has_ty(BaseTy::BigInt) {
        return None;
    }
    let a = literal_at(args, 0);
    let b = literal_at(args, 1);
    if str_eq(name, "from-string") {
        if !pool.has_ty(BaseTy::Str) {
            return None;
        }
        match a {
            Some(h) => literal(from_string(pool, h)),
            None => None,
        }
    } else if str_eq(name, "bigrat") {
        if !pool.has_ty(BaseTy::BigRat) {
            return None;
        }
        match (a, b) {
            (Some(n), Some(d)) => literal(Some(bigrat(pool, n, d))),
            _ => None,
        }
    } else {
        match BigratOp::from_duck_name(name) {
            Some(op) => fold_op(pool, op, args),
            None => None,
        }
    }
}

/// A call that is folded gives what its function gives when it is run.
pub proof fn folding_agrees_with_running(p: PoolState, op: BigratOp, a: i64, b: i64)
    requires
        p.types.contains(BaseTy::BigRat),
        op.gives_fraction(),
    ensures
        folded_op(p, op, seq![Term::Lit(Literal::I64(a)), Term::Lit(Literal::I64(b))])
            == as_literal(
            bigrat_q_result(
                p,
                op,
                if op.unary() {
                    seq![a]
                } else {
                    seq![a, b]
                },
            ),
        ),
{
}

/// A primitive on fractions, run again on the pool that it left, gives the same handle and leaves
/// the pool as it is.
proof fn lemma_bigrat_twice(p: PoolState, op: BigratOp, raws: Seq<i64>)
    requires
        p.rats.no_duplicates(),
        rats_in_range(p, raws),
    ensures
        ({
            let (p2, r) = bigrat_q_result(p, op, raws);
            bigrat_q_result(p2, op, raws) == (p2, r)
        }),
{
    let (p2, r) = bigrat_q_result(p, op, raws);
    assert forall|i: int| 0 <= i < raws.len() implies rats_at(p2, raws)[i] == rats_at(p, raws)[i] by {
        assert((handle(raws[i]) as int) < p.rats.len());
    }
    assert(rats_at(p2, raws) =~= rats_at(p, raws));
    match bigrat_result(op, rats_at(p, raws)) {
        Some(q) => {
            lemma_interned_twice(p.rats, q);
        },
        None => {},
    }
}

proof fn lemma_interned_twice<A>(s: Seq<A>, x: A)
    requires
        s.no_duplicates(),
    ensures
        interned(interned(s, x), x) == interned(s, x),
        handle_of(interned(s, x), x) == handle_of(s, x),
{
    interning_gives_back(s, x);
    interning_is_stable(s, x, x);
    let t = interned(s, x);
    assert(t[handle_of(s, x)] == x);
    assert(t.contains(x));
}

/// The same call folds to the same literal again, and leaves the pool as it is: a constant that
/// occurs often has one handle.
pub proof fn folding_again_gives_the_same(
    pool: DuckdbBaseValuePool,
    name: Seq<char>,
    args: Seq<Term>,
)
    requires
        pool.wf(),
        fold_ready(pool, name, args),
    ensures
        ({
            let (p2, t) = folded(pool@, name, args);
            folded(p2, name, args) == (p2, t)
        }),
{
    let p = pool@;
    pool.facts();
    let a = lit_at(args, 0);
    let b = lit_at(args, 1);
    let (p2, t) = folded(p, name, args);
    if p.types.contains(BaseTy::BigInt) {
        if name == "from-string"@ {
            if a is Some && p.types.contains(BaseTy::Str) {
                match crate::duckdb::integer::parsed(p.strings[handle(a->0) as int]) {
                    Some(z) => {
                        lemma_interned_twice(p.ints, z);
                    },
                    None => {},
                }
            }
        } else if name == "bigrat"@ {
            if a is Some && b is Some && p.types.contains(BaseTy::BigRat) {
                lemma_interned_twice(
                    p.rats,
                    lowest(p.ints[handle(a->0) as int], p.ints[handle(b->0) as int]),
                );
            }
        } else if bigrat_op(name) is Some && p.types.contains(BaseTy::BigRat) && a is Some {
            let op = bigrat_op(name)->0;
            let qa = p.rats[handle(a->0) as int];
            if op.unary() || b is Some {
                if op.comparison() {
                } else if op.gives_integer() {
                    lemma_interned_twice(p.ints, side(op, qa));
                } else if op is ToF64 {
                } else if op.unary() {
                    lemma_bigrat_twice(p, op, seq![a->0]);
                } else {
                    lemma_bigrat_twice(p, op, seq![a->0, b->0]);
                }
            }
        }
    }
}

} // verus!
