//! What the primitives on strings give, and what a call on literals folds to.
use crate::duckdb::fold::{as_literal, folded};
use crate::duckdb::integer::{digits_value, parsed};
use crate::duckdb::named::{is_int, is_rat, lowest_terms_keep_the_quotient, named_of_folds};
use crate::duckdb::ops::bigrat_compared;
use crate::duckdb::pool::{interning_gives_back, BaseTy, PoolState};
use crate::duckdb::rational::{float_bits, lowest};
use crate::duckdb::rules::{Literal, Term};
use crate::duckdb::udf::{
    bigint_to_string_result, bigrat_q_result, builtin_udf, concatenated, from_string_result, handle,
    side, with_int, with_rat, UdfKind,
};
use crate::text::signed_decimal;
use vstd::prelude::*;
use vstd::string::*;

verus! {

/// Whether a handle is that of a string.
pub open spec fn is_string(p: PoolState, h: i64, s: Seq<char>) -> bool {
    0 <= handle(h) < p.strings.len() && p.strings[handle(h) as int] == s
}

/// Strings are put together in their order: none gives the empty string, one gives itself, and two
/// lists give the two texts, the second behind the first.
pub proof fn strings_are_put_together_in_order(p: PoolState, a: Seq<i64>, b: Seq<i64>)
    ensures
        a.len() == 0 ==> concatenated(p, a) == Seq::<char>::empty(),
        a.len() == 1 ==> concatenated(p, a) == p.strings[handle(a[0]) as int],
        concatenated(p, a + b) == concatenated(p, a) + concatenated(p, b),
    decreases b.len(),
{
    if a.len() == 1 {
        assert(a.drop_last() =~= Seq::empty());
        assert(concatenated(p, a.drop_last()) =~= Seq::empty());
        assert(concatenated(p, a) =~= p.strings[handle(a[0]) as int]);
    }
    if b.len() == 0 {
        assert(a + b =~= a);
        assert(concatenated(p, a) + concatenated(p, b) =~= concatenated(p, a));
    } else {
        assert((a + b).drop_last() =~= a + b.drop_last());
        assert((a + b).last() == b.last());
        strings_are_put_together_in_order(p, a, b.drop_last());
        assert(concatenated(p, a + b) =~= concatenated(p, a) + concatenated(p, b));
    }
}

/// A numeral is read digit by digit: one more digit makes ten times the number and the digit, an
/// underscore behind a digit makes no difference, and a minus sign in front makes it negative. What
/// holds any other character is no numeral.
pub proof fn numerals_are_read_digit_by_digit(s: Seq<char>, c: char)
    requires
        s.len() > 0,
        '0' <= s[0] && s[0] <= '9',
    ensures
        '0' <= c && c <= '9' ==> parsed(s.push(c)) == match parsed(s) {
            Some(n) => Some(10 * n + (c as u32 - '0' as u32)),
            None => None,
        },
        c == '_' ==> parsed(s.push(c)) == parsed(s),
        c != '_' && !('0' <= c && c <= '9') ==> parsed(s.push(c)) is None,
        parsed(seq!['-'] + s) == match parsed(s) {
            Some(n) => Some(-n),
            None => None,
        },
        parsed(seq!['+'] + s) == parsed(s),
        s.len() == 1 ==> parsed(s) == Some(s[0] as u32 - '0' as u32),
{
    let t = s.push(c);
    assert(t.drop_last() =~= s);
    assert(t[0] == s[0]);
    assert((seq!['-'] + s).skip(1) =~= s);
    assert((seq!['+'] + s).skip(1) =~= s);
    assert((seq!['-'] + s)[0] == '-');
    assert((seq!['+'] + s)[0] == '+');
    if s.len() == 1 {
        assert(s.drop_last() =~= Seq::empty());
        assert(digits_value(s.drop_last()) == Some(0nat));
    }
}

/// A string of a number is its decimal numeral, and a numeral's number is that of its string.
pub proof fn numbers_and_strings_change_places(p: PoolState, h: i64, n: int, s: Seq<char>)
    requires
        p.strings.len() < u32::MAX,
        p.ints.len() < u32::MAX,
    ensures
        is_int(p, h, n) ==> (bigint_to_string_result(p, h).1 matches Some(r) && is_string(
            bigint_to_string_result(p, h).0,
            r,
            signed_decimal(n),
        )),
        is_string(p, h, s) ==> (from_string_result(p, h).1 is Some <==> parsed(s) is Some),
        is_string(p, h, s) ==> (parsed(s) matches Some(m) ==> is_int(
            from_string_result(p, h).0,
            from_string_result(p, h).1->0,
            m,
        )),
{
    if is_int(p, h, n) {
        interning_gives_back(p.strings, signed_decimal(n));
    }
    if is_string(p, h, s) && parsed(s) is Some {
        interning_gives_back(p.ints, parsed(s)->0);
    }
}

/// The fraction of two integers stands for their quotient.
pub proof fn fractions_stand_for_quotients(p: PoolState, n: int, d: int)
    requires
        d != 0,
        p.rats.len() < u32::MAX,
    ensures
        ({
            let (p2, r) = with_rat(p, lowest(n, d));
            r is Some && exists|q: (int, int)| #[trigger]
                is_rat(p2, r->0, q) && q.1 > 0 && q.0 * d == n * q.1
        }),
{
    let q = lowest(n, d);
    lowest_terms_keep_the_quotient(n, d);
    interning_gives_back(p.rats, q);
    let (p2, r) = with_rat(p, q);
    assert(is_rat(p2, r->0, q));
}

/// The arguments of a call on two integer literals.
pub open spec fn two_literals(a: i64, b: i64) -> Seq<Term> {
    seq![Term::Lit(Literal::I64(a)), Term::Lit(Literal::I64(b))]
}

/// A call on literals folds to what the function of that name gives on them: the handle of the same
/// value as a literal, and the same pool; where the function gives nothing the call is not folded.
pub proof fn folding_runs_the_named_function(
    p: PoolState,
    name: Seq<char>,
    udf: Seq<char>,
    kind: UdfKind,
    a: i64,
    b: i64,
)
    requires
        p.types.contains(BaseTy::BigInt),
        builtin_udf(name, p.types) == Some((udf, kind)),
    ensures
        ({
            let got = folded(p, name, two_literals(a, b));
            let qa = p.rats[handle(a) as int];
            let qb = p.rats[handle(b) as int];
            match kind {
                UdfKind::BigratBinary(op) => got == as_literal(bigrat_q_result(p, op, seq![a, b])),
                UdfKind::BigratUnary(op) => got == as_literal(bigrat_q_result(p, op, seq![a])),
                UdfKind::BigratSide(op) => got == as_literal(with_int(p, side(op, qa))),
                UdfKind::BigratOrder(op) => got == (
                    p,
                    Some(Term::Lit(Literal::Bool(bigrat_compared(op, qa, qb)))),
                ),
                UdfKind::BigratToF64 => got.0 == p && (got.1 is Some <==> float_bits(qa.0, qa.1) is Some)
                    && (got.1 is Some ==> got.1 == Some(
                    Term::Lit(Literal::F64(float_bits(qa.0, qa.1)->0)),
                )),
                UdfKind::Bigrat => got == as_literal(
                    with_rat(p, lowest(p.ints[handle(a) as int], p.ints[handle(b) as int])),
                ),
                UdfKind::FromString => p.types.contains(BaseTy::Str) ==> got == as_literal(
                    from_string_result(p, a),
                ),
                _ => true,
            }
        }),
{
    named_of_folds(p.types, name);
    let args = two_literals(a, b);
    assert(args[0].lit() == Some(a));
    assert(args[1].lit() == Some(b));
}

} // verus!
