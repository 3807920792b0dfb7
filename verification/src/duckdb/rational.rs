//! Fractions of integers of any size.
//!
//! A [`Rational`] is held in lowest terms; its arithmetic is that of `num::BigRational`.
use crate::duckdb::integer::Integer;
use num::bigint::Sign;
use num::{BigInt, BigRational};
use vstd::arithmetic::power::pow;
use vstd::prelude::*;

verus! {

/// A fraction in lowest terms, with a denominator above zero.
#[derive(Debug)]
pub struct Rational {
    pub numer: Integer,
    pub denom: Integer,
}

/// The greatest common divisor.
pub open spec fn gcd(a: nat, b: nat) -> nat
    decreases b,
{
    if b == 0 {
        a
    } else {
        gcd(b, a % b)
    }
}

/// The number without its sign.
pub open spec fn abs(n: int) -> nat {
    if n < 0 {
        (-n) as nat
    } else {
        n as nat
    }
}

/// The fraction `n / d` in lowest terms, with a denominator above zero.
pub open spec fn lowest(n: int, d: int) -> (int, int) {
    let g = gcd(abs(n), abs(d)) as int;
    if d < 0 {
        (-n / g, -d / g)
    } else {
        (n / g, d / g)
    }
}

impl View for Rational {
    type V = (int, int);

    open spec fn view(&self) -> (int, int) {
        (self.numer@, self.denom@)
    }
}

impl Rational {
    /// The fraction is in lowest terms, and its denominator is above zero.
    pub open spec fn wf(self) -> bool {
        &&& self.numer.wf()
        &&& self.denom.wf()
        &&& self.denom@ > 0
        &&& gcd(abs(self.numer@), abs(self.denom@)) == 1
    }
}

/// The order of the arguments does not matter.
proof fn lemma_gcd_symmetric(a: nat, b: nat)
    ensures
        gcd(a, b) == gcd(b, a),
{
    reveal_with_fuel(gcd, 3);
    if a == b {
    } else if a < b {
        if b > 0 {
            vstd::arithmetic::div_mod::lemma_small_mod(a, b);
        }
    } else {
        vstd::arithmetic::div_mod::lemma_small_mod(b, a);
    }
}

impl Rational {
    /// Whether the two are the same number.
    pub fn same(&self, other: &Rational) -> (b: bool)
        requires
            self.wf(),
            other.wf(),
        ensures
            b == (self@ == other@),
    {
        self.numer.same(&other.numer) && self.denom.same(&other.denom)
    }

    /// The same number again.
    pub fn duplicate(&self) -> (r: Rational)
        ensures
            r@ == self@,
            r.wf() == self.wf(),
            r.size() == self.size(),
    {
        Rational { numer: self.numer.duplicate(), denom: self.denom.duplicate() }
    }

    /// Zero.
    pub fn zero() -> (r: Rational)
        ensures
            r.wf(),
            r@ == (0int, 1int),
    {
        reveal_with_fuel(gcd, 3);
        Rational { numer: Integer::zero(), denom: Integer::one() }
    }

    /// One.
    pub fn one() -> (r: Rational)
        ensures
            r.wf(),
            r@ == (1int, 1int),
    {
        reveal_with_fuel(gcd, 3);
        Rational { numer: Integer::one(), denom: Integer::one() }
    }

    /// Whether the number is zero.
    pub fn is_zero(&self) -> (b: bool)
        requires
            self.wf(),
        ensures
            b == (self@.0 == 0),
    {
        self.numer.is_zero()
    }

    /// Whether the number is an integer.
    pub fn is_integer(&self) -> (b: bool)
        requires
            self.wf(),
        ensures
            b == (self@.1 == 1),
    {
        self.denom.same(&Integer::one())
    }

    /// The number with its sign turned.
    pub fn negated(&self) -> (r: Rational)
        requires
            self.wf(),
        ensures
            r.wf(),
            r@ == (-self@.0, self@.1),
    {
        Rational { numer: self.numer.negated(), denom: self.denom.duplicate() }
    }

    /// One over the number.
    pub fn recip(&self) -> (r: Rational)
        requires
            self.wf(),
            self@.0 != 0,
        ensures
            r.wf(),
            r@ == reciprocal(self@),
            r.size() == self.size(),
    {
        proof {
            lemma_gcd_symmetric(abs(self.numer@), abs(self.denom@));
        }
        if self.numer.is_negative() {
            Rational {
                numer: Integer { negative: true, digits: self.denom.duplicate().digits },
                denom: Integer { negative: false, digits: self.numer.duplicate().digits },
            }
        } else {
            Rational { numer: self.denom.duplicate(), denom: self.numer.duplicate() }
        }
    }

    /// How many digits the numerator and the denominator take.
    pub open spec fn size(self) -> nat {
        self.numer.digits@.len() + self.denom.digits@.len()
    }

    /// Whether the power can be held in memory.
    pub fn can_raise(&self, e: u64) -> (b: bool)
        requires
            self.wf(),
        ensures
            b == self.power_fits(e as nat),
    {
        let n: usize = self.numer.digits.len();
        let d: usize = self.denom.digits.len();
        if e > usize::MAX as u64 {
            return false;
        }
        let one = Integer::one();
        if self.denom.same(&one) && (self.numer.is_zero() || self.numer.absolute().same(&one)) {
            return true;
        }
        let limit: usize = usize::MAX / 64;
        let k: usize = e as usize;
        if k == 0 {
            assert(self.size() * 0 == 0);
            return true;
        }
        let most: usize = limit / k;
        let b = n <= most && d <= most - n;
        proof {
            let s = self.size() as int;
            let k = k as int;
            assert(limit == most * k + limit as int % k) by {
                vstd::arithmetic::div_mod::lemma_fundamental_div_mod(limit as int, k);
                assert(k * most == most * k) by (nonlinear_arith);
            }
            if b {
                assert(s * k <= limit) by (nonlinear_arith)
                    requires
                        s <= most,
                        k > 0,
                        most * k <= limit,
                ;
            } else {
                assert(s * k > limit) by (nonlinear_arith)
                    requires
                        s >= most + 1,
                        k > 0,
                        limit < most * k + k,
                ;
            }
        }
        b
    }

    /// Whether the power can be held in memory: the number's powers do not grow, or the digits of
    /// the result can be counted.
    pub open spec fn power_fits(self, e: nat) -> bool {
        e <= usize::MAX && ((abs(self@.0) <= 1 && self@.1 == 1) || self.size() * e <= usize::MAX
            / 64)
    }
}

/// One over a fraction.
pub open spec fn reciprocal(q: (int, int)) -> (int, int) {
    if q.0 < 0 {
        (-q.1, -q.0)
    } else {
        (q.1, q.0)
    }
}

/// The integer next below a fraction.
pub open spec fn floor_of(q: (int, int)) -> (int, int) {
    (q.0 / q.1, 1)
}

/// The integer next above a fraction.
pub open spec fn ceil_of(q: (int, int)) -> (int, int) {
    (-(-q.0 / q.1), 1)
}

/// The integer nearest to a fraction; a half goes away from zero.
pub open spec fn round_of(q: (int, int)) -> (int, int) {
    if q.0 >= 0 {
        ((2 * q.0 + q.1) / (2 * q.1), 1)
    } else {
        (-((2 * -q.0 + q.1) / (2 * q.1)), 1)
    }
}

/// The bits of the float that `num::ToPrimitive::to_f64` gives for a fraction in lowest terms.
pub uninterp spec fn float_bits(numer: int, denom: int) -> Option<u64>;

/// `num::BigRational::new`: the fraction in lowest terms. It panics on a zero denominator.
#[verifier::external_body]
pub(crate) fn fraction(n: &Integer, d: &Integer) -> (r: Rational)
    requires
        n.wf(),
        d.wf(),
        d@ != 0,
    ensures
        r.wf(),
        r@ == lowest(n@, d@),
{
    let r = BigRational::new(
        BigInt::new(if n.negative { Sign::Minus } else { Sign::Plus }, n.digits.clone()),
        BigInt::new(if d.negative { Sign::Minus } else { Sign::Plus }, d.digits.clone()),
    );
    let ((sign, numer), (_, denom)) = (r.numer().to_u32_digits(), r.denom().to_u32_digits());
    Rational {
        numer: Integer { negative: sign == Sign::Minus, digits: numer },
        denom: Integer { negative: false, digits: denom },
    }
}

/// `num::BigRational` addition: the sum.
#[verifier::external_body]
pub(crate) fn sum(a: &Rational, b: &Rational) -> (r: Rational)
    requires
        a.wf(),
        b.wf(),
    ensures
        r.wf(),
        r@ == lowest(a@.0 * b@.1 + b@.0 * a@.1, a@.1 * b@.1),
{
    let x = BigRational::new_raw(
        BigInt::new(if a.numer.negative { Sign::Minus } else { Sign::Plus }, a.numer.digits.clone()),
        BigInt::new(Sign::Plus, a.denom.digits.clone()),
    );
    let y = BigRational::new_raw(
        BigInt::new(if b.numer.negative { Sign::Minus } else { Sign::Plus }, b.numer.digits.clone()),
        BigInt::new(Sign::Plus, b.denom.digits.clone()),
    );
    let r = x + y;
    let ((sign, numer), (_, denom)) = (r.numer().to_u32_digits(), r.denom().to_u32_digits());
    Rational {
        numer: Integer { negative: sign == Sign::Minus, digits: numer },
        denom: Integer { negative: false, digits: denom },
    }
}

/// `num::BigRational` subtraction: the difference.
#[verifier::external_body]
pub(crate) fn difference(a: &Rational, b: &Rational) -> (r: Rational)
    requires
        a.wf(),
        b.wf(),
    ensures
        r.wf(),
        r@ == lowest(a@.0 * b@.1 - b@.0 * a@.1, a@.1 * b@.1),
{
    let x = BigRational::new_raw(
        BigInt::new(if a.numer.negative { Sign::Minus } else { Sign::Plus }, a.numer.digits.clone()),
        BigInt::new(Sign::Plus, a.denom.digits.clone()),
    );
    let y = BigRational::new_raw(
        BigInt::new(if b.numer.negative { Sign::Minus } else { Sign::Plus }, b.numer.digits.clone()),
        BigInt::new(Sign::Plus, b.denom.digits.clone()),
    );
    let r = x - y;
    let ((sign, numer), (_, denom)) = (r.numer().to_u32_digits(), r.denom().to_u32_digits());
    Rational {
        numer: Integer { negative: sign == Sign::Minus, digits: numer },
        denom: Integer { negative: false, digits: denom },
    }
}

/// `num::BigRational` multiplication: the product.
#[verifier::external_body]
pub(crate) fn product(a: &Rational, b: &Rational) -> (r: Rational)
    requires
        a.wf(),
        b.wf(),
    ensures
        r.wf(),
        r@ == lowest(a@.0 * b@.0, a@.1 * b@.1),
{
    let x = BigRational::new_raw(
        BigInt::new(if a.numer.negative { Sign::Minus } else { Sign::Plus }, a.numer.digits.clone()),
        BigInt::new(Sign::Plus, a.denom.digits.clone()),
    );
    let y = BigRational::new_raw(
        BigInt::new(if b.numer.negative { Sign::Minus } else { Sign::Plus }, b.numer.digits.clone()),
        BigInt::new(Sign::Plus, b.denom.digits.clone()),
    );
    let r = x * y;
    let ((sign, numer), (_, denom)) = (r.numer().to_u32_digits(), r.denom().to_u32_digits());
    Rational {
        numer: Integer { negative: sign == Sign::Minus, digits: numer },
        denom: Integer { negative: false, digits: denom },
    }
}

/// `num::BigRational` division: the quotient. It panics on a zero divisor.
#[verifier::external_body]
pub(crate) fn ratio(a: &Rational, b: &Rational) -> (r: Rational)
    requires
        a.wf(),
        b.wf(),
        b@.0 != 0,
    ensures
        r.wf(),
        r@ == lowest(a@.0 * b@.1, a@.1 * b@.0),
{
    let x = BigRational::new_raw(
        BigInt::new(if a.numer.negative { Sign::Minus } else { Sign::Plus }, a.numer.digits.clone()),
        BigInt::new(Sign::Plus, a.denom.digits.clone()),
    );
    let y = BigRational::new_raw(
        BigInt::new(if b.numer.negative { Sign::Minus } else { Sign::Plus }, b.numer.digits.clone()),
        BigInt::new(Sign::Plus, b.denom.digits.clone()),
    );
    let r = x / y;
    let ((sign, numer), (_, denom)) = (r.numer().to_u32_digits(), r.denom().to_u32_digits());
    Rational {
        numer: Integer { negative: sign == Sign::Minus, digits: numer },
        denom: Integer { negative: false, digits: denom },
    }
}

/// `num::BigRational` order: whether `a` is the smaller.
#[verifier::external_body]
pub(crate) fn below(a: &Rational, b: &Rational) -> (r: bool)
    requires
        a.wf(),
        b.wf(),
    ensures
        r == (a@.0 * b@.1 < b@.0 * a@.1),
{
    let x = BigRational::new_raw(
        BigInt::new(if a.numer.negative { Sign::Minus } else { Sign::Plus }, a.numer.digits.clone()),
        BigInt::new(Sign::Plus, a.denom.digits.clone()),
    );
    let y = BigRational::new_raw(
        BigInt::new(if b.numer.negative { Sign::Minus } else { Sign::Plus }, b.numer.digits.clone()),
        BigInt::new(Sign::Plus, b.denom.digits.clone()),
    );
    x < y
}

/// `num::BigRational::floor`: the integer next below.
#[verifier::external_body]
pub(crate) fn floor(a: &Rational) -> (r: Rational)
    requires
        a.wf(),
    ensures
        r.wf(),
        r@ == floor_of(a@),
{
    let x = BigRational::new_raw(
        BigInt::new(if a.numer.negative { Sign::Minus } else { Sign::Plus }, a.numer.digits.clone()),
        BigInt::new(Sign::Plus, a.denom.digits.clone()),
    );
    let r = x.floor();
    let ((sign, numer), (_, denom)) = (r.numer().to_u32_digits(), r.denom().to_u32_digits());
    Rational {
        numer: Integer { negative: sign == Sign::Minus, digits: numer },
        denom: Integer { negative: false, digits: denom },
    }
}

/// `num::BigRational::ceil`: the integer next above.
#[verifier::external_body]
pub(crate) fn ceil(a: &Rational) -> (r: Rational)
    requires
        a.wf(),
    ensures
        r.wf(),
        r@ == ceil_of(a@),
{
    let x = BigRational::new_raw(
        BigInt::new(if a.numer.negative { Sign::Minus } else { Sign::Plus }, a.numer.digits.clone()),
        BigInt::new(Sign::Plus, a.denom.digits.clone()),
    );
    let r = x.ceil();
    let ((sign, numer), (_, denom)) = (r.numer().to_u32_digits(), r.denom().to_u32_digits());
    Rational {
        numer: Integer { negative: sign == Sign::Minus, digits: numer },
        denom: Integer { negative: false, digits: denom },
    }
}

/// `num::BigRational::round`: the nearest integer; a half goes away from zero.
#[verifier::external_body]
pub(crate) fn round(a: &Rational) -> (r: Rational)
    requires
        a.wf(),
    ensures
        r.wf(),
        r@ == round_of(a@),
{
    let x = BigRational::new_raw(
        BigInt::new(if a.numer.negative { Sign::Minus } else { Sign::Plus }, a.numer.digits.clone()),
        BigInt::new(Sign::Plus, a.denom.digits.clone()),
    );
    let r = x.round();
    let ((sign, numer), (_, denom)) = (r.numer().to_u32_digits(), r.denom().to_u32_digits());
    Rational {
        numer: Integer { negative: sign == Sign::Minus, digits: numer },
        denom: Integer { negative: false, digits: denom },
    }
}

/// `num::traits::checked_pow` on `num::BigRational`: the power. The multiplications of
/// `num::BigInt` never fail, so there is always a result; it has to fit in memory.
#[verifier::external_body]
pub(crate) fn power(a: &Rational, e: usize) -> (o: Option<Rational>)
    requires
        a.wf(),
        a.power_fits(e as nat),
    ensures
        o is Some && o->0.wf(),
        o->0@ == (pow(a@.0, e as nat), pow(a@.1, e as nat)),
{
    let x = BigRational::new_raw(
        BigInt::new(if a.numer.negative { Sign::Minus } else { Sign::Plus }, a.numer.digits.clone()),
        BigInt::new(Sign::Plus, a.denom.digits.clone()),
    );
    let r = num::traits::checked_pow(x, e)?;
    let ((sign, numer), (_, denom)) = (r.numer().to_u32_digits(), r.denom().to_u32_digits());
    Some(Rational {
        numer: Integer { negative: sign == Sign::Minus, digits: numer },
        denom: Integer { negative: false, digits: denom },
    })
}

/// `num::ToPrimitive::to_f64` on `num::BigRational`: the bits of the float it gives, if any.
#[verifier::external_body]
pub(crate) fn to_float_bits(a: &Rational) -> (o: Option<u64>)
    requires
        a.wf(),
    ensures
        o == float_bits(a@.0, a@.1),
{
    let x = BigRational::new_raw(
        BigInt::new(if a.numer.negative { Sign::Minus } else { Sign::Plus }, a.numer.digits.clone()),
        BigInt::new(Sign::Plus, a.denom.digits.clone()),
    );
    num::ToPrimitive::to_f64(&x).map(|f| f.to_bits())
}

} // verus!
