use egglog_backends::duckdb::base_value::{
    pool_get, pool_get_ty, pool_register_type, pool_unwrap,
};
use egglog_backends::duckdb::fold::{can_fold, fold_prim};
use egglog_backends::duckdb::integer::Integer;
use egglog_backends::duckdb::ops::{run_bigint, run_bigrat_order, run_bigrat_q, BigintOp, BigratOp};
use egglog_backends::duckdb::pool::{BaseTy, DuckdbBaseValuePool};
use egglog_backends::duckdb::rational::Rational;
use egglog_backends::duckdb::rules::{Literal, Term};
use egglog_backends::duckdb::udf::{
    bigint, bigint_binary, bigint_to_string, bigrat, bigrat_order, bigrat_q, bigrat_side,
    bigrat_to_f64, count_matches, from_string, i64_to_string, plan_builtin_udf, replace,
    string_concat, UdfKind,
};

fn num(v: i64) -> Integer {
    let m = v.unsigned_abs();
    let mut digits = vec![m as u32, (m >> 32) as u32];
    while digits.last() == Some(&0) {
        digits.pop();
    }
    Integer { negative: v < 0, digits }
}

fn value(z: &Integer) -> i64 {
    z.to_i64().unwrap()
}

fn bin(op: BigintOp, a: i64, b: i64) -> Option<i64> {
    run_bigint(op, &num(a), &num(b)).map(|z| value(&z))
}

fn rat(n: i64, d: i64) -> Rational {
    run_bigrat_q(BigratOp::Div, &vec![whole(n), whole(d)]).unwrap()
}

fn whole(n: i64) -> Rational {
    Rational { numer: num(n), denom: num(1) }
}

fn parts(q: &Rational) -> (i64, i64) {
    (value(&q.numer), value(&q.denom))
}

fn two(op: BigratOp, a: Rational, b: Rational) -> Option<(i64, i64)> {
    run_bigrat_q(op, &vec![a, b]).map(|q| parts(&q))
}

fn one(op: BigratOp, a: Rational) -> Option<(i64, i64)> {
    run_bigrat_q(op, &vec![a]).map(|q| parts(&q))
}

#[test]
fn integer_arithmetic() {
    assert_eq!(bin(BigintOp::Add, i64::MAX, -1), Some(i64::MAX - 1));
    assert_eq!(bin(BigintOp::Add, 7, -9), Some(-2));
    assert_eq!(bin(BigintOp::Sub, 7, 9), Some(-2));
    assert_eq!(bin(BigintOp::Mul, -4_000_000_000, 2), Some(-8_000_000_000));
    assert_eq!(bin(BigintOp::Div, -7, 2), Some(-3));
    assert_eq!(bin(BigintOp::Rem, -7, 2), Some(-1));
    assert_eq!(bin(BigintOp::Div, 7, -2), Some(-3));
    assert_eq!(bin(BigintOp::Rem, 7, -2), Some(1));
    assert_eq!(bin(BigintOp::Div, 1, 0), None);
    assert_eq!(bin(BigintOp::Rem, 1, 0), None);
    assert_eq!(bin(BigintOp::And, -4, 7), Some(4));
    assert_eq!(bin(BigintOp::Or, -4, 1), Some(-3));
    assert_eq!(bin(BigintOp::Xor, -1, 5), Some(-6));
    assert_eq!(bin(BigintOp::Min, -3, 2), Some(-3));
    assert_eq!(bin(BigintOp::Max, -3, 2), Some(2));
    let big = run_bigint(BigintOp::Mul, &num(i64::MAX), &num(i64::MAX)).unwrap();
    assert_eq!(big.to_i64(), None);
    assert_eq!(num(i64::MIN).to_i64(), Some(i64::MIN));
}

#[test]
fn fractions_are_in_lowest_terms() {
    assert_eq!(parts(&rat(6, -4)), (-3, 2));
    assert_eq!(parts(&rat(0, -4)), (0, 1));
    assert_eq!(two(BigratOp::Add, rat(1, 6), rat(1, 3)), Some((1, 2)));
    assert_eq!(two(BigratOp::Sub, rat(1, 6), rat(1, 3)), Some((-1, 6)));
    assert_eq!(two(BigratOp::Mul, rat(2, 3), rat(3, 4)), Some((1, 2)));
    assert_eq!(two(BigratOp::Div, rat(1, 2), rat(-1, 4)), Some((-2, 1)));
    assert_eq!(two(BigratOp::Div, rat(1, 2), rat(0, 1)), None);
    assert_eq!(two(BigratOp::Min, rat(1, 2), rat(1, 3)), Some((1, 3)));
    assert_eq!(two(BigratOp::Max, rat(1, 2), rat(1, 3)), Some((1, 2)));
}

#[test]
fn powers_roots_and_rounding() {
    assert_eq!(two(BigratOp::Pow, rat(2, 3), whole(3)), Some((8, 27)));
    assert_eq!(two(BigratOp::Pow, rat(-2, 3), whole(-3)), Some((-27, 8)));
    assert_eq!(two(BigratOp::Pow, rat(2, 3), rat(1, 2)), None);
    assert_eq!(two(BigratOp::Pow, whole(0), whole(0)), Some((1, 1)));
    assert_eq!(two(BigratOp::Pow, whole(0), whole(5)), Some((0, 1)));
    assert_eq!(two(BigratOp::Pow, whole(0), whole(-5)), None);
    assert_eq!(two(BigratOp::Pow, whole(-1), whole(i64::MAX)), Some((-1, 1)));
    assert_eq!(two(BigratOp::Pow, whole(2), whole(i64::MIN)), None);
    assert!(whole(2).can_raise(1000));
    assert!(!whole(2).can_raise(i64::MAX as u64));
    assert!(whole(1).can_raise(i64::MAX as u64));
    assert_eq!(one(BigratOp::Sqrt, rat(4, 9)), Some((2, 3)));
    assert_eq!(one(BigratOp::Sqrt, rat(2, 9)), None);
    assert_eq!(one(BigratOp::Sqrt, rat(4, 3)), None);
    assert_eq!(one(BigratOp::Sqrt, rat(-4, 9)), None);
    assert_eq!(one(BigratOp::Neg, rat(1, 2)), Some((-1, 2)));
    assert_eq!(one(BigratOp::Abs, rat(-1, 2)), Some((1, 2)));
    assert_eq!(one(BigratOp::Floor, rat(-7, 2)), Some((-4, 1)));
    assert_eq!(one(BigratOp::Ceil, rat(-7, 2)), Some((-3, 1)));
    assert_eq!(one(BigratOp::Floor, rat(7, 2)), Some((3, 1)));
    assert_eq!(one(BigratOp::Ceil, rat(7, 2)), Some((4, 1)));
    assert_eq!(one(BigratOp::Round, rat(5, 2)), Some((3, 1)));
    assert_eq!(one(BigratOp::Round, rat(-5, 2)), Some((-3, 1)));
    assert_eq!(one(BigratOp::Round, rat(7, 3)), Some((2, 1)));
    assert_eq!(one(BigratOp::Log, whole(1)), Some((0, 1)));
    assert_eq!(one(BigratOp::Log, whole(2)), None);
    assert_eq!(one(BigratOp::Cbrt, whole(1)), Some((1, 1)));
    assert_eq!(one(BigratOp::Cbrt, whole(8)), None);
}

#[test]
fn fractions_are_ordered() {
    assert!(run_bigrat_order(BigratOp::Lt, &rat(-1, 2), &rat(1, 3)));
    assert!(!run_bigrat_order(BigratOp::Gt, &rat(-1, 2), &rat(1, 3)));
    assert!(run_bigrat_order(BigratOp::Le, &rat(1, 3), &rat(1, 3)));
    assert!(run_bigrat_order(BigratOp::Ge, &rat(1, 3), &rat(1, 3)));
    assert!(!run_bigrat_order(BigratOp::Ge, &rat(1, 3), &rat(1, 2)));
}

#[test]
fn operations_have_names() {
    assert_eq!(BigratOp::from_duck_name("bigrat-to-f64"), Some(BigratOp::ToF64));
    assert_eq!(BigratOp::from_duck_name("bigrat-pow"), Some(BigratOp::Pow));
    assert_eq!(BigratOp::from_duck_name("bigint-add"), None);
    assert_eq!(BigintOp::from_duck_name("bigint-add"), Some(BigintOp::Add));
    assert_eq!(BigintOp::from_duck_name("bigint-xor"), Some(BigintOp::Xor));
    assert_eq!(BigintOp::from_duck_name("add"), None);
    assert!(BigratOp::Numer.is_unary() && BigratOp::Numer.returns_z());
    assert!(BigratOp::ToF64.returns_f64() && !BigratOp::Add.is_unary());
    assert!(BigratOp::Ge.is_comparison() && !BigratOp::Min.is_comparison());
}

fn pool() -> DuckdbBaseValuePool {
    let mut p = DuckdbBaseValuePool::new();
    p.register_type(BaseTy::Str);
    p.register_type(BaseTy::BigInt);
    p.register_type(BaseTy::BigRat);
    p
}

fn text(p: &mut DuckdbBaseValuePool, s: &str) -> i64 {
    p.intern_string(s.to_string()) as i64
}

#[test]
fn handles_are_stable() {
    let mut p = pool();
    assert_eq!(p.register_type(BaseTy::BigInt).rep(), 1);
    assert_eq!(p.type_id(BaseTy::Pair).map(|t| t.rep()), None);
    let a = text(&mut p, "a");
    let b = text(&mut p, "b");
    assert_ne!(a, b);
    assert_eq!(text(&mut p, "a"), a);
    assert_eq!(p.string_at(b as u32), "b");
    assert!(p.handle_in_range(BaseTy::Str, 1) && !p.handle_in_range(BaseTy::Str, 2));
    let z = bigint(&mut p, -5);
    assert_eq!(bigint(&mut p, -5), z);
    assert_eq!(value(p.int_at(z as u32)), -5);
    assert!(p.room_left());
}

#[test]
fn strings_parse_as_integers() {
    let mut p = pool();
    let mut parse = |s: &str| {
        let h = text(&mut p, s);
        from_string(&mut p, h).map(|z| value(p.int_at(z as u32)))
    };
    assert_eq!(parse("42"), Some(42));
    assert_eq!(parse("-1_000"), Some(-1000));
    assert_eq!(parse("+7"), Some(7));
    assert_eq!(parse(""), None);
    assert_eq!(parse("-"), None);
    assert_eq!(parse("_1"), None);
    assert_eq!(parse("++1"), None);
    assert_eq!(parse("-+1"), None);
    assert_eq!(parse("1x"), None);
    assert_eq!(from_string(&mut p, 9999), None);
}

#[test]
fn printing_and_parsing_gives_the_handle_back() {
    let mut p = pool();
    let z = bigint(&mut p, -9_223_372_036_854_775_808);
    let s = bigint_to_string(&mut p, z).unwrap();
    assert_eq!(p.string_at(s as u32), "-9223372036854775808");
    assert_eq!(from_string(&mut p, s), Some(z));
    assert_eq!(bigint_to_string(&mut p, 77), None);
    let h = i64_to_string(&mut p, 12);
    assert_eq!(p.string_at(h as u32), "12");
}

#[test]
fn wide_machine_integers_have_handles() {
    let mut p = pool();
    for v in [0, 1, 0x7fff_ffff, 0x8000_0000, -1, i64::MIN, i64::MAX] {
        let h = p.intern_i64(v);
        assert_eq!(h < 0x8000_0000, (0..0x8000_0000).contains(&v));
        assert!(h >= 0x8000_0000 || h as i64 == v);
        assert_eq!(p.i64_at(h), v);
        assert_eq!(p.intern_i64(v), h);
        let s = i64_to_string(&mut p, h as i64);
        assert_eq!(p.string_at(s as u32), &v.to_string());
    }
    assert!(p.handle_in_range(BaseTy::I64, 0x8000_0003));
    assert!(!p.handle_in_range(BaseTy::I64, 0x8000_0004));
}

#[test]
fn values_of_any_type_are_read_back() {
    let mut p = DuckdbBaseValuePool::new();
    let id = pool_register_type::<String>(&mut p);
    assert_eq!(pool_register_type::<i64>(&mut p).rep(), 1);
    assert_eq!(pool_register_type::<Integer>(&mut p).rep(), 2);
    assert_eq!(pool_register_type::<Rational>(&mut p).rep(), 3);
    assert_eq!(pool_get_ty::<String>(&p), id);
    let s = pool_get(&mut p, "x".to_string());
    let big = pool_get(&mut p, -5i64);
    let small = pool_get(&mut p, 5i64);
    let z = pool_get(&mut p, num(-7));
    let q = pool_get(&mut p, rat(1, 2));
    assert_eq!(pool_get(&mut p, "y".to_string()).rep(), 1);
    assert_eq!(pool_unwrap::<String>(&p, s), "x");
    assert_eq!(pool_unwrap::<i64>(&p, big), -5);
    assert_eq!((pool_unwrap::<i64>(&p, small), small.rep()), (5, 5));
    assert_eq!(value(&pool_unwrap::<Integer>(&p, z)), -7);
    assert_eq!(parts(&pool_unwrap::<Rational>(&p, q)), (1, 2));
    assert_eq!(pool_get(&mut p, "x".to_string()), s);
}

#[test]
fn primitives_on_handles() {
    let mut p = pool();
    let six = bigint(&mut p, 6);
    let four = bigint(&mut p, 4);
    let zero = bigint(&mut p, 0);
    let r = bigint_binary(&mut p, BigintOp::Sub, four, six).unwrap();
    assert_eq!(value(p.int_at(r as u32)), -2);
    assert_eq!(bigint_binary(&mut p, BigintOp::Div, six, zero), None);
    assert_eq!(bigint_binary(&mut p, BigintOp::Add, six, 500), None);
    let q = bigrat(&mut p, six, four);
    assert_eq!(parts(p.rat_at(q as u32)), (3, 2));
    let sq = bigrat_q(&mut p, BigratOp::Mul, &vec![q, q]).unwrap();
    assert_eq!(parts(p.rat_at(sq as u32)), (9, 4));
    assert_eq!(bigrat_q(&mut p, BigratOp::Log, &vec![q]), None);
    assert!(bigrat_order(&p, BigratOp::Lt, q, sq));
    let d = bigrat_side(&mut p, BigratOp::Denom, sq);
    assert_eq!(d, four);
    assert_eq!(bigrat_to_f64(&p, q), Some(1.5f64.to_bits()));
}

#[test]
fn primitives_on_strings() {
    let mut p = pool();
    let a = text(&mut p, "abab");
    let b = text(&mut p, "ab");
    let e = text(&mut p, "");
    let x = text(&mut p, "x");
    let c = string_concat(&mut p, &vec![a, x, b]);
    assert_eq!(p.string_at(c as u32), "ababxab");
    let none = string_concat(&mut p, &vec![]);
    assert_eq!(none, e);
    let r = replace(&mut p, a, b, x);
    assert_eq!(p.string_at(r as u32), "xx");
    let r = replace(&mut p, b, e, x);
    assert_eq!(p.string_at(r as u32), &"ab".replace("", "x"));
    assert_eq!(count_matches(&p, a, b), 2);
    assert_eq!(count_matches(&p, a, e), 0);
    assert_eq!(count_matches(&p, b, a), 0);
}

fn lit(v: i64) -> Term {
    Term::i64(v)
}

fn folds(p: &mut DuckdbBaseValuePool, name: &str, args: Vec<Term>) -> Option<Literal> {
    assert!(can_fold(p, name, &args));
    match fold_prim(p, name, &args) {
        Some(Term::Lit(l)) => Some(l),
        Some(_) => unreachable!(),
        None => None,
    }
}

#[test]
fn calls_on_literals_fold() {
    let mut p = pool();
    let three = text(&mut p, "3");
    let bad = text(&mut p, "three");
    let z = match folds(&mut p, "from-string", vec![lit(three)]) {
        Some(Literal::I64(h)) => h,
        _ => unreachable!(),
    };
    assert_eq!(value(p.int_at(z as u32)), 3);
    assert!(folds(&mut p, "from-string", vec![lit(bad)]).is_none());
    assert!(folds(&mut p, "from-string", vec![]).is_none());
    assert!(folds(&mut p, "from-string", vec![Term::var("x".to_string())]).is_none());
    let two = bigint(&mut p, 2);
    let q = match folds(&mut p, "bigrat", vec![lit(z), lit(two)]) {
        Some(Literal::I64(h)) => h,
        _ => unreachable!(),
    };
    assert_eq!(parts(p.rat_at(q as u32)), (3, 2));
    assert!(matches!(
        folds(&mut p, "bigrat-lt", vec![lit(q), lit(q)]),
        Some(Literal::Bool(false))
    ));
    assert!(matches!(
        folds(&mut p, "bigrat-le", vec![lit(q), lit(q)]),
        Some(Literal::Bool(true))
    ));
    match folds(&mut p, "bigrat-numer", vec![lit(q)]) {
        Some(Literal::I64(h)) => assert_eq!(h, z),
        _ => unreachable!(),
    }
    match folds(&mut p, "bigrat-to-f64", vec![lit(q)]) {
        Some(Literal::F64(bits)) => assert_eq!(f64::from_bits(bits), 1.5),
        _ => unreachable!(),
    }
    match folds(&mut p, "bigrat-add", vec![lit(q), lit(q)]) {
        Some(Literal::I64(h)) => assert_eq!(parts(p.rat_at(h as u32)), (3, 1)),
        _ => unreachable!(),
    }
    match folds(&mut p, "bigrat-floor", vec![lit(q)]) {
        Some(Literal::I64(h)) => assert_eq!(parts(p.rat_at(h as u32)), (1, 1)),
        _ => unreachable!(),
    }
    assert!(folds(&mut p, "bigrat-add", vec![lit(q)]).is_none());
    assert!(folds(&mut p, "bigint-add", vec![lit(z), lit(z)]).is_none());
    let zero = bigint(&mut p, 0);
    assert!(!can_fold(&p, "bigrat", &vec![lit(z), lit(zero)]));
    assert!(!can_fold(&p, "bigrat-neg", &vec![lit(1000)]));
    assert!(!can_fold(&p, "from-string", &vec![lit(1000)]));
    let mut empty = DuckdbBaseValuePool::new();
    assert!(folds(&mut empty, "from-string", vec![lit(0)]).is_none());
}

#[test]
fn folding_gives_what_running_gives() {
    let mut p = pool();
    let one = bigint(&mut p, 1);
    let two = bigint(&mut p, 2);
    let three = bigint(&mut p, 3);
    let half = bigrat(&mut p, one, two);
    let third = bigrat(&mut p, one, three);
    let folded = match folds(&mut p, "bigrat-add", vec![lit(half), lit(third)]) {
        Some(Literal::I64(h)) => h,
        _ => unreachable!(),
    };
    assert_eq!(parts(p.rat_at(folded as u32)), (5, 6));
    assert_eq!(bigrat_q(&mut p, BigratOp::Add, &vec![half, third]), Some(folded));
    match folds(&mut p, "bigrat-add", vec![lit(half), lit(third)]) {
        Some(Literal::I64(h)) => assert_eq!(h, folded),
        _ => unreachable!(),
    }
}

#[test]
fn primitives_need_functions_and_types() {
    let full = pool();
    let plan = |p: &DuckdbBaseValuePool, n: &str| plan_builtin_udf(n, p);
    assert_eq!(
        plan(&full, "string-concat"),
        Some(("__egglog_string_concat".to_string(), UdfKind::StringConcat))
    );
    assert_eq!(
        plan(&full, "bigint-to-string"),
        Some(("__egglog_bigint_to_string".to_string(), UdfKind::BigIntToString))
    );
    assert_eq!(
        plan(&full, "get-size!"),
        Some(("__egglog_get_size".to_string(), UdfKind::GetSize))
    );
    assert_eq!(
        plan(&full, "bigint-mul"),
        Some(("__egglog_bigint_mul".to_string(), UdfKind::BigintBinary(BigintOp::Mul)))
    );
    assert_eq!(
        plan(&full, "bigrat-to-f64"),
        Some(("__egglog_bigrat_to_f64".to_string(), UdfKind::BigratToF64))
    );
    assert_eq!(
        plan(&full, "bigrat-sqrt"),
        Some(("__egglog_bigrat_sqrt".to_string(), UdfKind::BigratUnary(BigratOp::Sqrt)))
    );
    assert_eq!(
        plan(&full, "bigrat-ge"),
        Some(("__egglog_bigrat_ge".to_string(), UdfKind::BigratOrder(BigratOp::Ge)))
    );
    assert_eq!(plan(&full, "plus"), None);
    let empty = DuckdbBaseValuePool::new();
    assert_eq!(plan(&empty, "string-concat"), None);
    assert_eq!(plan(&empty, "get-size!"), None);
    let mut ints = DuckdbBaseValuePool::new();
    ints.register_type(BaseTy::BigInt);
    assert_eq!(plan(&ints, "bigrat"), None);
    assert_eq!(plan(&ints, "bigrat-add"), None);
    assert_eq!(plan(&ints, "bigint-to-string"), None);
    assert!(plan(&ints, "from-string").is_some());
}
