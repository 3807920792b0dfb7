//! The operations of the integer and fraction primitives.
use crate::duckdb::integer;
use crate::duckdb::integer::{bit, quotient, Integer};
use crate::duckdb::rational;
use crate::duckdb::rational::{abs, ceil_of, floor_of, lowest, reciprocal, round_of, Rational};
use crate::text::str_eq;
use vstd::arithmetic::power::pow;
use vstd::prelude::*;

verus! {

/// A primitive on fractions.
#[derive(Clone, Copy, Debug, PartialEq, Eq, Structural)]
pub enum BigratOp {
    Add,
    Sub,
    Mul,
    Div,
    Min,
    Max,
    Pow,
    Neg,
    Abs,
    Floor,
    Ceil,
    Round,
    Sqrt,
    Log,
    Cbrt,
    Lt,
    Gt,
    Le,
    Ge,
    Numer,
    Denom,
    ToF64,
}

/// A primitive on integers.
#[derive(Clone, Copy, Debug, PartialEq, Eq, Structural)]
pub enum BigintOp {
    Add,
    Sub,
    Mul,
    Div,
    Rem,
    And,
    Or,
    Xor,
    Min,
    Max,
}

/// The operation that a primitive's name stands for.
pub open spec fn bigrat_op(name: Seq<char>) -> Option<BigratOp> {
    if name == "bigrat-add"@ {
        Some(BigratOp::Add)
    } else if name == "bigrat-sub"@ {
        Some(BigratOp::Sub)
    } else if name == "bigrat-mul"@ {
        Some(BigratOp::Mul)
    } else if name == "bigrat-div"@ {
        Some(BigratOp::Div)
    } else if name == "bigrat-min"@ {
        Some(BigratOp::Min)
    } else if name == "bigrat-max"@ {
        Some(BigratOp::Max)
    } else if name == "bigrat-pow"@ {
        Some(BigratOp::Pow)
    } else if name == "bigrat-neg"@ {
        Some(BigratOp::Neg)
    } else if name == "bigrat-abs"@ {
        Some(BigratOp::Abs)
    } else if name == "bigrat-floor"@ {
        Some(BigratOp::Floor)
    } else if name == "bigrat-ceil"@ {
        Some(BigratOp::Ceil)
    } else if name == "bigrat-round"@ {
        Some(BigratOp::Round)
    } else if name == "bigrat-sqrt"@ {
        Some(BigratOp::Sqrt)
    } else if name == "bigrat-log"@ {
        Some(BigratOp::Log)
    } else if name == "bigrat-cbrt"@ {
        Some(BigratOp::Cbrt)
    } else if name == "bigrat-lt"@ {
        Some(BigratOp::Lt)
    } else if name == "bigrat-gt"@ {
        Some(BigratOp::Gt)
    } else if name == "bigrat-le"@ {
        Some(BigratOp::Le)
    } else if name == "bigrat-ge"@ {
        Some(BigratOp::Ge)
    } else if name == "bigrat-numer"@ {
        Some(BigratOp::Numer)
    } else if name == "bigrat-denom"@ {
        Some(BigratOp::Denom)
    } else if name == "bigrat-to-f64"@ {
        Some(BigratOp::ToF64)
    } else {
        None
    }
}

impl BigratOp {
    /// The operation that a primitive's name stands for.
    pub fn from_duck_name(name: &str) -> (r: Option<BigratOp>)
        ensures
            r == bigrat_op(name@),
    {
        if str_eq(name, "bigrat-add") {
            Some(BigratOp::Add)
        } else if str_eq(name, "bigrat-sub") {
            Some(BigratOp::Sub)
        } else if str_eq(name, "bigrat-mul") {
            Some(BigratOp::Mul)
        } else if str_eq(name, "bigrat-div") {
            Some(BigratOp::Div)
        } else if str_eq(name, "bigrat-min") {
            Some(BigratOp::Min)
        } else if str_eq(name, "bigrat-max") {
            Some(BigratOp::Max)
        } else if str_eq(name, "bigrat-pow") {
            Some(BigratOp::Pow)
        } else if str_eq(name, "bigrat-neg") {
            Some(BigratOp::Neg)
        } else if str_eq(name, "bigrat-abs") {
            Some(BigratOp::Abs)
        } else if str_eq(name, "bigrat-floor") {
            Some(BigratOp::Floor)
        } else if str_eq(name, "bigrat-ceil") {
            Some(BigratOp::Ceil)
        } else if str_eq(name, "bigrat-round") {
            Some(BigratOp::Round)
        } else if str_eq(name, "bigrat-sqrt") {
            Some(BigratOp::Sqrt)
        } else if str_eq(name, "bigrat-log") {
            Some(BigratOp::Log)
        } else if str_eq(name, "bigrat-cbrt") {
            Some(BigratOp::Cbrt)
        } else if str_eq(name, "bigrat-lt") {
            Some(BigratOp::Lt)
        } else if str_eq(name, "bigrat-gt") {
            Some(BigratOp::Gt)
        } else if str_eq(name, "bigrat-le") {
            Some(BigratOp::Le)
        } else if str_eq(name, "bigrat-ge") {
            Some(BigratOp::Ge)
        } else if str_eq(name, "bigrat-numer") {
            Some(BigratOp::Numer)
        } else if str_eq(name, "bigrat-denom") {
            Some(BigratOp::Denom)
        } else if str_eq(name, "bigrat-to-f64") {
            Some(BigratOp::ToF64)
        } else {
            None
        }
    }

    /// Whether the operation takes one argument.
    pub open spec fn unary(self) -> bool {
        match self {
            BigratOp::Neg | BigratOp::Abs | BigratOp::Floor | BigratOp::Ceil | BigratOp::Round
            | BigratOp::Sqrt | BigratOp::Log | BigratOp::Cbrt | BigratOp::Numer | BigratOp::Denom
            | BigratOp::ToF64 => true,
            _ => false,
        }
    }

    /// Whether the operation compares.
    pub open spec fn comparison(self) -> bool {
        self is Lt || self is Gt || self is Le || self is Ge
    }

    /// Whether the operation gives an integer.
    pub open spec fn gives_integer(self) -> bool {
        self is Numer || self is Denom
    }

    /// Whether the operation gives a fraction.
    pub open spec fn gives_fraction(self) -> bool {
        !self.comparison() && !self.gives_integer() && !(self is ToF64)
    }

    /// Whether the operation takes one argument.
    pub fn is_unary(&self) -> (b: bool)
        ensures
            b == self.unary(),
    {
        matches!(
            self,
            BigratOp::Neg
            | BigratOp::Abs
            | BigratOp::Floor
            | BigratOp::Ceil
            | BigratOp::Round
            | BigratOp::Sqrt
            | BigratOp::Log
            | BigratOp::Cbrt
            | BigratOp::Numer
            | BigratOp::Denom
            | BigratOp::ToF64
        )
    }

    /// Whether the operation compares.
    pub fn is_comparison(&self) -> (b: bool)
        ensures
            b == self.comparison(),
    {
        matches!(self, BigratOp::Lt | BigratOp::Gt | BigratOp::Le | BigratOp::Ge)
    }

    /// Whether the operation gives an integer.
    pub fn returns_z(&self) -> (b: bool)
        ensures
            b == self.gives_integer(),
    {
        matches!(self, BigratOp::Numer | BigratOp::Denom)
    }

    /// Whether the operation gives a float.
    pub fn returns_f64(&self) -> (b: bool)
        ensures
            b == (self is ToF64),
    {
        matches!(self, BigratOp::ToF64)
    }
}

/// The operation that a primitive's name stands for.
pub open spec fn bigint_op(name: Seq<char>) -> Option<BigintOp> {
    if name == "bigint-add"@ {
        Some(BigintOp::Add)
    } else if name == "bigint-sub"@ {
        Some(BigintOp::Sub)
    } else if name == "bigint-mul"@ {
        Some(BigintOp::Mul)
    } else if name == "bigint-div"@ {
        Some(BigintOp::Div)
    } else if name == "bigint-rem"@ {
        Some(BigintOp::Rem)
    } else if name == "bigint-and"@ {
        Some(BigintOp::And)
    } else if name == "bigint-or"@ {
        Some(BigintOp::Or)
    } else if name == "bigint-xor"@ {
        Some(BigintOp::Xor)
    } else if name == "bigint-min"@ {
        Some(BigintOp::Min)
    } else if name == "bigint-max"@ {
        Some(BigintOp::Max)
    } else {
        None
    }
}

impl BigintOp {
    /// The operation that a primitive's name stands for.
    pub fn from_duck_name(name: &str) -> (r: Option<BigintOp>)
        ensures
            r == bigint_op(name@),
    {
        if str_eq(name, "bigint-add") {
            Some(BigintOp::Add)
        } else if str_eq(name, "bigint-sub") {
            Some(BigintOp::Sub)
        } else if str_eq(name, "bigint-mul") {
            Some(BigintOp::Mul)
        } else if str_eq(name, "bigint-div") {
            Some(BigintOp::Div)
        } else if str_eq(name, "bigint-rem") {
            Some(BigintOp::Rem)
        } else if str_eq(name, "bigint-and") {
            Some(BigintOp::And)
        } else if str_eq(name, "bigint-or") {
            Some(BigintOp::Or)
        } else if str_eq(name, "bigint-xor") {
            Some(BigintOp::Xor)
        } else if str_eq(name, "bigint-min") {
            Some(BigintOp::Min)
        } else if str_eq(name, "bigint-max") {
            Some(BigintOp::Max)
        } else {
            None
        }
    }
}

/// What an integer primitive gives: nothing for a division by zero.
pub open spec fn bigint_result(op: BigintOp, a: int, b: int, r: Option<int>) -> bool {
    match op {
        BigintOp::Add => r == Some(a + b),
        BigintOp::Sub => r == Some(a - b),
        BigintOp::Mul => r == Some(a * b),
        BigintOp::Div => r == if b == 0 {
            None
        } else {
            Some(quotient(a, b))
        },
        BigintOp::Rem => r == if b == 0 {
            None
        } else {
            Some(a - b * quotient(a, b))
        },
        BigintOp::And => r is Some && (forall|i: nat| #[trigger]
            bit(r->0, i) == (bit(a, i) && bit(b, i))),
        BigintOp::Or => r is Some && (forall|i: nat| #[trigger]
            bit(r->0, i) == (bit(a, i) || bit(b, i))),
        BigintOp::Xor => r is Some && (forall|i: nat| #[trigger]
            bit(r->0, i) == (bit(a, i) != bit(b, i))),
        BigintOp::Min => r == Some(
            if a <= b {
                a
            } else {
                b
            },
        ),
        BigintOp::Max => r == Some(
            if a <= b {
                b
            } else {
                a
            },
        ),
    }
}

/// The number behind an optional integer.
pub open spec fn number(r: Option<Integer>) -> Option<int> {
    match r {
        Some(z) => Some(z@),
        None => None,
    }
}

/// The number behind an optional fraction.
pub open spec fn fraction_of(r: Option<Rational>) -> Option<(int, int)> {
    match r {
        Some(q) => Some(q@),
        None => None,
    }
}

/// Runs an integer primitive.
pub fn run_bigint(op: BigintOp, a: &Integer, b: &Integer) -> (r: Option<Integer>)
    requires
        a.wf(),
        b.wf(),
    ensures
        r is Some ==> r->0.wf(),
        bigint_result(op, a@, b@, number(r)),
{
    match op {
        BigintOp::Add => Some(integer::sum(a, b)),
        BigintOp::Sub => Some(integer::difference(a, b)),
        BigintOp::Mul => Some(integer::product(a, b)),
        BigintOp::Div => if b.is_zero() {
            None
        } else {
            Some(integer::divided(a, b))
        },
        BigintOp::Rem => if b.is_zero() {
            None
        } else {
            Some(integer::remainder(a, b))
        },
        BigintOp::And => Some(integer::bits_and(a, b)),
        BigintOp::Or => Some(integer::bits_or(a, b)),
        BigintOp::Xor => Some(integer::bits_xor(a, b)),
        BigintOp::Min => if integer::below(b, a) {
            Some(b.duplicate())
        } else {
            Some(a.duplicate())
        },
        BigintOp::Max => if integer::below(b, a) {
            Some(a.duplicate())
        } else {
            Some(b.duplicate())
        },
    }
}

/// Whether `n` is the square of an integer.
pub open spec fn is_square(n: int) -> bool {
    exists|r: int| r >= 0 && #[trigger] (r * r) == n
}

/// The root of a square.
pub open spec fn square_root(n: int) -> int {
    choose|r: int| r >= 0 && #[trigger] (r * r) == n
}

/// Whether the first fraction is the smaller.
pub open spec fn less(a: (int, int), b: (int, int)) -> bool {
    a.0 * b.1 < b.0 * a.1
}

/// A fraction raised to a fraction: nothing for an exponent that is no integer or does not fit 64
/// bits, and for zero raised to a number below zero.
pub open spec fn raised(a: (int, int), b: (int, int)) -> Option<(int, int)> {
    if b.1 != 1 {
        None
    } else if a.0 == 0 {
        if b.0 == 0 {
            Some((1, 1))
        } else if b.0 > 0 {
            Some((0, 1))
        } else {
            None
        }
    } else if abs(b.0) > i64::MAX {
        None
    } else {
        let base = if b.0 < 0 {
            reciprocal(a)
        } else {
            a
        };
        Some((pow(base.0, abs(b.0)), pow(base.1, abs(b.0))))
    }
}

/// What a primitive from fractions to a fraction gives.
pub open spec fn bigrat_result(op: BigratOp, args: Seq<(int, int)>) -> Option<(int, int)> {
    let a = args[0];
    let b = args[1];
    match op {
        BigratOp::Add => Some(lowest(a.0 * b.1 + b.0 * a.1, a.1 * b.1)),
        BigratOp::Sub => Some(lowest(a.0 * b.1 - b.0 * a.1, a.1 * b.1)),
        BigratOp::Mul => Some(lowest(a.0 * b.0, a.1 * b.1)),
        BigratOp::Div => if b.0 == 0 {
            None
        } else {
            Some(lowest(a.0 * b.1, a.1 * b.0))
        },
        BigratOp::Min => Some(
            if less(b, a) {
                b
            } else {
                a
            },
        ),
        BigratOp::Max => Some(
            if less(b, a) {
                a
            } else {
                b
            },
        ),
        BigratOp::Pow => raised(a, b),
        BigratOp::Neg => Some((-a.0, a.1)),
        BigratOp::Abs => Some(lowest(abs(a.0) as int, a.1)),
        BigratOp::Floor => Some(floor_of(a)),
        BigratOp::Ceil => Some(ceil_of(a)),
        BigratOp::Round => Some(round_of(a)),
        BigratOp::Sqrt => if is_square(a.0) && is_square(a.1) {
            Some(lowest(square_root(a.0), square_root(a.1)))
        } else {
            None
        },
        BigratOp::Log => if a == (1int, 1int) {
            Some((0, 1))
        } else {
            None
        },
        BigratOp::Cbrt => if a == (1int, 1int) {
            Some((1, 1))
        } else {
            None
        },
        _ => None,
    }
}

/// How many arguments a primitive on fractions takes.
pub open spec fn bigrat_arity(op: BigratOp) -> nat {
    if op.unary() {
        1
    } else {
        2
    }
}

/// What fractions stand for.
pub open spec fn fractions(args: Seq<Rational>) -> Seq<(int, int)> {
    args.map_values(|q: Rational| q@)
}

/// Whether a power, if it is one that is computed, can be held in memory.
pub open spec fn power_ready(op: BigratOp, args: Seq<Rational>) -> bool {
    op is Pow && args[1]@.1 == 1 && args[0]@.0 != 0 && abs(args[1]@.0) <= i64::MAX
        ==> args[0].power_fits(abs(args[1]@.0))
}

/// The arguments are numbers, and enough of them.
pub open spec fn bigrat_args_ok(op: BigratOp, args: Seq<Rational>) -> bool {
    &&& args.len() >= bigrat_arity(op)
    &&& forall|i: int| 0 <= i < args.len() ==> (#[trigger] args[i]).wf()
    &&& power_ready(op, args)
}

/// A number between the squares of two neighbours is a square just if it is the lower one.
proof fn lemma_square_between(n: int, r: int)
    requires
        0 <= r,
        r * r <= n,
        n < (r + 1) * (r + 1),
    ensures
        is_square(n) == (r * r == n),
        is_square(n) ==> square_root(n) == r,
{
    if r * r == n {
        assert(is_square(n));
    }
    if is_square(n) {
        let s = square_root(n);
        assert(s >= 0 && s * s == n);
        assert(s == r) by (nonlinear_arith)
            requires
                s >= 0,
                r >= 0,
                s * s == n,
                r * r <= n,
                n < (r + 1) * (r + 1),
        ;
    }
}

/// The fraction raised to the power.
fn run_power(a: &Rational, b: &Rational) -> (r: Option<Rational>)
    requires
        a.wf(),
        b.wf(),
        b@.1 == 1 && a@.0 != 0 && abs(b@.0) <= i64::MAX ==> a.power_fits(abs(b@.0)),
    ensures
        r is Some ==> r->0.wf(),
        fraction_of(r) == raised(a@, b@),
{
    if !b.is_integer() {
        return None;
    }
    if a.is_zero() {
        if b.is_zero() {
            return Some(Rational::one());
        }
        if !b.numer.is_negative() {
            return Some(Rational::zero());
        }
        return None;
    }
    let is_neg = b.numer.is_negative();
    let adj_base = if is_neg {
        a.recip()
    } else {
        a.duplicate()
    };
    let adj_exp = b.numer.absolute();
    match adj_exp.to_i64() {
        None => None,
        Some(e) => {
            let exp: usize = e as usize;
            assert(adj_base.power_fits(exp as nat));
            rational::power(&adj_base, exp)
        },
    }
}

/// The square root, where numerator and denominator are squares.
fn run_sqrt(a: &Rational) -> (r: Option<Rational>)
    requires
        a.wf(),
    ensures
        r is Some ==> r->0.wf(),
        fraction_of(r) == bigrat_result(BigratOp::Sqrt, seq![a@]),
{
    if a.numer.is_negative() {
        proof {
            if is_square(a@.0) {
                let r = square_root(a@.0);
                assert(r * r >= 0) by (nonlinear_arith);
            }
        }
        return None;
    }
    let n = integer::root(&a.numer);
    let d = integer::root(&a.denom);
    proof {
        lemma_square_between(a@.0, n@);
        lemma_square_between(a@.1, d@);
        if d@ == 0 {
            assert(d@ * d@ == 0);
        }
    }
    if integer::product(&n, &n).same(&a.numer) && integer::product(&d, &d).same(&a.denom) {
        Some(rational::fraction(&n, &d))
    } else {
        None
    }
}

/// Runs a primitive from fractions to a fraction.
pub fn run_bigrat_q(op: BigratOp, args: &Vec<Rational>) -> (r: Option<Rational>)
    requires
        op.gives_fraction(),
        bigrat_args_ok(op, args@),
    ensures
        r is Some ==> r->0.wf(),
        fraction_of(r) == bigrat_result(op, fractions(args@)),
{
    let ghost f = fractions(args@);
    match op {
        BigratOp::Add => Some(rational::sum(&args[0], &args[1])),
        BigratOp::Sub => Some(rational::difference(&args[0], &args[1])),
        BigratOp::Mul => Some(rational::product(&args[0], &args[1])),
        BigratOp::Div => if args[1].is_zero() {
            None
        } else {
            Some(rational::ratio(&args[0], &args[1]))
        },
        BigratOp::Min => if rational::below(&args[1], &args[0]) {
            Some(args[1].duplicate())
        } else {
            Some(args[0].duplicate())
        },
        BigratOp::Max => if rational::below(&args[1], &args[0]) {
            Some(args[0].duplicate())
        } else {
            Some(args[1].duplicate())
        },
        BigratOp::Pow => run_power(&args[0], &args[1]),
        BigratOp::Neg => Some(args[0].negated()),
        BigratOp::Abs => Some(rational::fraction(&args[0].numer.absolute(), &args[0].denom)),
        BigratOp::Floor => Some(rational::floor(&args[0])),
        BigratOp::Ceil => Some(rational::ceil(&args[0])),
        BigratOp::Round => Some(rational::round(&args[0])),
        BigratOp::Sqrt => run_sqrt(&args[0]),
        BigratOp::Log => if args[0].same(&Rational::one()) {
            Some(Rational::zero())
        } else {
            None
        },
        BigratOp::Cbrt => if args[0].same(&Rational::one()) {
            Some(Rational::one())
        } else {
            None
        },
        _ => None,
    }
}

/// What a comparison of two fractions gives.
pub open spec fn bigrat_compared(op: BigratOp, a: (int, int), b: (int, int)) -> bool {
    match op {
        BigratOp::Lt => less(a, b),
        BigratOp::Gt => less(b, a),
        BigratOp::Le => !less(b, a),
        _ => !less(a, b),
    }
}

/// Runs a comparison of two fractions.
pub fn run_bigrat_order(op: BigratOp, a: &Rational, b: &Rational) -> (r: bool)
    requires
        op.comparison(),
        a.wf(),
        b.wf(),
    ensures
        r == bigrat_compared(op, a@, b@),
{
    match op {
        BigratOp::Lt => rational::below(a, b),
        BigratOp::Gt => rational::below(b, a),
        BigratOp::Le => !rational::below(b, a),
        _ => !rational::below(a, b),
    }
}

} // verus!
