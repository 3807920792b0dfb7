//! Integers of any size.
//!
//! An [`Integer`] is held as plain digits; its arithmetic is that of `num::BigInt`.
use crate::text::signed_decimal;
use num::bigint::Sign;
use vstd::arithmetic::power2::pow2;
use vstd::prelude::*;

verus! {

/// An integer: a sign and base-2^32 digits, the least significant first.
#[derive(Debug)]
pub struct Integer {
    pub negative: bool,
    pub digits: Vec<u32>,
}

/// The number that base-2^32 digits stand for, the least significant first.
pub open spec fn magnitude(digits: Seq<u32>) -> nat
    decreases digits.len(),
{
    if digits.len() == 0 {
        0
    } else {
        (digits[0] + 0x1_0000_0000 * magnitude(digits.skip(1))) as nat
    }
}

impl View for Integer {
    type V = int;

    open spec fn view(&self) -> int {
        if self.negative {
            -(magnitude(self.digits@) as int)
        } else {
            magnitude(self.digits@) as int
        }
    }
}

impl Integer {
    /// The most significant digit is not zero, and zero has no sign.
    pub open spec fn wf(self) -> bool {
        &&& self.digits@.len() > 0 ==> self.digits@.last() != 0
        &&& self.negative ==> self.digits@.len() > 0
    }
}

/// Digits with a most significant one stand for at least its place.
proof fn lemma_magnitude_positive(d: Seq<u32>)
    requires
        d.len() > 0,
        d.last() != 0,
    ensures
        magnitude(d) > 0,
    decreases d.len(),
{
    if d.len() > 1 {
        assert(d.skip(1).last() == d.last());
        lemma_magnitude_positive(d.skip(1));
    }
}

/// Digits without leading zeros are determined by the number.
proof fn lemma_magnitude_injective(a: Seq<u32>, b: Seq<u32>)
    requires
        a.len() > 0 ==> a.last() != 0,
        b.len() > 0 ==> b.last() != 0,
        magnitude(a) == magnitude(b),
    ensures
        a == b,
    decreases a.len(),
{
    if a.len() == 0 {
        if b.len() > 0 {
            lemma_magnitude_positive(b);
        }
        assert(a =~= b);
    } else if b.len() == 0 {
        lemma_magnitude_positive(a);
    } else {
        let x = magnitude(a.skip(1)) as int;
        let y = magnitude(b.skip(1)) as int;
        assert(a[0] + 0x1_0000_0000 * x == b[0] + 0x1_0000_0000 * y);
        assert(a[0] == b[0] && x == y);
        if a.len() > 1 {
            assert(a.skip(1).last() == a.last());
        }
        if b.len() > 1 {
            assert(b.skip(1).last() == b.last());
        }
        lemma_magnitude_injective(a.skip(1), b.skip(1));
        assert(a =~= seq![a[0]] + a.skip(1));
        assert(b =~= seq![b[0]] + b.skip(1));
    }
}

/// An integer has one representation.
pub proof fn representation_is_unique(a: Integer, b: Integer)
    requires
        a.wf(),
        b.wf(),
        a@ == b@,
    ensures
        a.negative == b.negative,
        a.digits@ == b.digits@,
{
    if a.digits@.len() > 0 {
        lemma_magnitude_positive(a.digits@);
    }
    if b.digits@.len() > 0 {
        lemma_magnitude_positive(b.digits@);
    }
    lemma_magnitude_injective(a.digits@, b.digits@);
}

impl Integer {
    /// Whether the two are the same number.
    pub fn same(&self, other: &Integer) -> (b: bool)
        requires
            self.wf(),
            other.wf(),
        ensures
            b == (self@ == other@),
    {
        let n: usize = self.digits.len();
        let mut b = self.negative == other.negative && n == other.digits.len();
        if b {
            for i in 0..n
                invariant
                    n == self.digits@.len(),
                    n == other.digits@.len(),
                    b == (forall|k: int|
                        0 <= k < i ==> self.digits@[k] == #[trigger] other.digits@[k]),
            {
                if self.digits[i] != other.digits[i] {
                    b = false;
                }
            }
        }
        proof {
            if self@ == other@ {
                representation_is_unique(*self, *other);
            }
            if b {
                assert(self.digits@ =~= other.digits@);
            }
        }
        b
    }

    /// Whether the number is zero.
    pub fn is_zero(&self) -> (b: bool)
        requires
            self.wf(),
        ensures
            b == (self@ == 0),
    {
        proof {
            if self.digits@.len() > 0 {
                lemma_magnitude_positive(self.digits@);
            }
        }
        self.digits.len() == 0
    }

    /// Whether the number is below zero.
    pub fn is_negative(&self) -> (b: bool)
        requires
            self.wf(),
        ensures
            b == (self@ < 0),
    {
        proof {
            if self.digits@.len() > 0 {
                lemma_magnitude_positive(self.digits@);
            }
        }
        self.negative
    }

    /// The same number again.
    pub fn duplicate(&self) -> (r: Integer)
        ensures
            r@ == self@,
            r.wf() == self.wf(),
            r.digits@ == self.digits@,
    {
        Integer { negative: self.negative, digits: self.copied_digits() }
    }

    fn copied_digits(&self) -> (r: Vec<u32>)
        ensures
            r@ == self.digits@,
    {
        let mut r: Vec<u32> = Vec::new();
        let n: usize = self.digits.len();
        for i in 0..n
            invariant
                n == self.digits@.len(),
                r@ == self.digits@.take(i as int),
        {
            r.push(self.digits[i]);
            assert(self.digits@.take(i + 1) =~= self.digits@.take(i as int).push(
                self.digits@[i as int],
            ));
        }
        assert(self.digits@.take(n as int) =~= self.digits@);
        r
    }

    /// The number with its sign turned.
    pub fn negated(&self) -> (r: Integer)
        requires
            self.wf(),
        ensures
            r.wf(),
            r@ == -self@,
    {
        proof {
            if self.digits@.len() > 0 {
                lemma_magnitude_positive(self.digits@);
            }
        }
        let digits = self.copied_digits();
        Integer { negative: !self.negative && digits.len() > 0, digits }
    }

    /// The number without its sign.
    pub fn absolute(&self) -> (r: Integer)
        requires
            self.wf(),
        ensures
            r.wf(),
            r@ == if self@ < 0 {
                -self@
            } else {
                self@
            },
    {
        proof {
            if self.digits@.len() > 0 {
                lemma_magnitude_positive(self.digits@);
            }
        }
        Integer { negative: false, digits: self.copied_digits() }
    }

    /// Zero.
    pub fn zero() -> (r: Integer)
        ensures
            r.wf(),
            r@ == 0,
    {
        Integer { negative: false, digits: Vec::new() }
    }

    /// One.
    pub fn one() -> (r: Integer)
        ensures
            r.wf(),
            r@ == 1,
    {
        let mut digits: Vec<u32> = Vec::new();
        digits.push(1);
        proof {
            assert(digits@.skip(1) =~= Seq::empty());
            assert(magnitude(digits@.skip(1)) == 0);
        }
        Integer { negative: false, digits }
    }

    /// The number, where it fits 64 bits with a sign.
    pub fn to_i64(&self) -> (r: Option<i64>)
        requires
            self.wf(),
        ensures
            r is Some <==> i64::MIN <= self@ <= i64::MAX,
            r is Some ==> r->0 == self@,
    {
        let n: usize = self.digits.len();
        let ghost d = self.digits@;
        proof {
            reveal_with_fuel(magnitude, 4);
        }
        if n > 2 {
            proof {
                assert(d.skip(1).skip(1) =~= d.skip(2));
                assert(d.skip(2).last() == d.last());
                lemma_magnitude_positive(d.skip(2));
                assert(magnitude(d) >= 0x1_0000_0000 * 0x1_0000_0000);
            }
            return None;
        }
        let mut m: u64 = 0;
        if n == 1 {
            m = self.digits[0] as u64;
            proof {
                assert(d.skip(1) =~= Seq::empty());
            }
        } else if n == 2 {
            m = self.digits[0] as u64 + 0x1_0000_0000 * (self.digits[1] as u64);
            proof {
                assert(d.skip(1).skip(1) =~= Seq::empty());
                assert(magnitude(d.skip(1)) == d[1]);
            }
        }
        assert(m == magnitude(d));
        if self.negative {
            if m < 0x8000_0000_0000_0000 {
                Some(-(m as i64))
            } else if m == 0x8000_0000_0000_0000 {
                Some(i64::MIN)
            } else {
                None
            }
        } else if m < 0x8000_0000_0000_0000 {
            Some(m as i64)
        } else {
            None
        }
    }
}

/// Division that drops the fraction.
pub open spec fn quotient(a: int, b: int) -> int {
    if a >= 0 && b > 0 {
        a / b
    } else if a >= 0 {
        -(a / -b)
    } else if b > 0 {
        -(-a / b)
    } else {
        -a / -b
    }
}

/// Bit `i` of an integer in two's complement, whose sign goes on without end.
pub open spec fn bit(n: int, i: nat) -> bool {
    (n / pow2(i) as int) % 2 == 1
}

/// The number that a run of decimal digits stands for; underscores between and behind the digits
/// are passed over.
pub open spec fn digits_value(s: Seq<char>) -> Option<nat>
    decreases s.len(),
{
    if s.len() == 0 {
        Some(0)
    } else {
        match digits_value(s.drop_last()) {
            None => None,
            Some(v) => if s.last() == '_' {
                Some(v)
            } else if '0' <= s.last() && s.last() <= '9' {
                Some((10 * v + (s.last() as u32 - '0' as u32)) as nat)
            } else {
                None
            },
        }
    }
}

/// The number that an unsigned numeral stands for: it begins with a digit.
pub open spec fn numeral_value(s: Seq<char>) -> Option<nat> {
    if s.len() > 0 && s[0] != '_' {
        digits_value(s)
    } else {
        None
    }
}

/// The integer that a text stands for: a sign or none, and a numeral.
pub open spec fn parsed(s: Seq<char>) -> Option<int> {
    if s.len() > 0 && s[0] == '-' {
        match numeral_value(s.skip(1)) {
            Some(v) => Some(-(v as int)),
            None => None,
        }
    } else {
        match numeral_value(
            if s.len() > 0 && s[0] == '+' {
                s.skip(1)
            } else {
                s
            },
        ) {
            Some(v) => Some(v as int),
            None => None,
        }
    }
}

/// `num::BigInt` addition: the sum.
#[verifier::external_body]
pub(crate) fn sum(a: &Integer, b: &Integer) -> (r: Integer)
    requires
        a.wf(),
        b.wf(),
    ensures
        r.wf(),
        r@ == a@ + b@,
{
    let x = num::BigInt::new(if a.negative { Sign::Minus } else { Sign::Plus }, a.digits.clone());
    let y = num::BigInt::new(if b.negative { Sign::Minus } else { Sign::Plus }, b.digits.clone());
    let (sign, digits) = (x + y).to_u32_digits();
    Integer { negative: sign == Sign::Minus, digits }
}

/// `num::BigInt` subtraction: the difference.
#[verifier::external_body]
pub(crate) fn difference(a: &Integer, b: &Integer) -> (r: Integer)
    requires
        a.wf(),
        b.wf(),
    ensures
        r.wf(),
        r@ == a@ - b@,
{
    let x = num::BigInt::new(if a.negative { Sign::Minus } else { Sign::Plus }, a.digits.clone());
    let y = num::BigInt::new(if b.negative { Sign::Minus } else { Sign::Plus }, b.digits.clone());
    let (sign, digits) = (x - y).to_u32_digits();
    Integer { negative: sign == Sign::Minus, digits }
}

/// `num::BigInt` multiplication: the product.
#[verifier::external_body]
pub(crate) fn product(a: &Integer, b: &Integer) -> (r: Integer)
    requires
        a.wf(),
        b.wf(),
    ensures
        r.wf(),
        r@ == a@ * b@,
{
    let x = num::BigInt::new(if a.negative { Sign::Minus } else { Sign::Plus }, a.digits.clone());
    let y = num::BigInt::new(if b.negative { Sign::Minus } else { Sign::Plus }, b.digits.clone());
    let (sign, digits) = (x * y).to_u32_digits();
    Integer { negative: sign == Sign::Minus, digits }
}

/// `num::BigInt` division: the quotient, rounded towards zero.
#[verifier::external_body]
pub(crate) fn divided(a: &Integer, b: &Integer) -> (r: Integer)
    requires
        a.wf(),
        b.wf(),
        b@ != 0,
    ensures
        r.wf(),
        r@ == quotient(a@, b@),
{
    let x = num::BigInt::new(if a.negative { Sign::Minus } else { Sign::Plus }, a.digits.clone());
    let y = num::BigInt::new(if b.negative { Sign::Minus } else { Sign::Plus }, b.digits.clone());
    let (sign, digits) = (x / y).to_u32_digits();
    Integer { negative: sign == Sign::Minus, digits }
}

/// `num::BigInt` remainder: what the quotient, rounded towards zero, leaves.
#[verifier::external_body]
pub(crate) fn remainder(a: &Integer, b: &Integer) -> (r: Integer)
    requires
        a.wf(),
        b.wf(),
        b@ != 0,
    ensures
        r.wf(),
        r@ == a@ - b@ * quotient(a@, b@),
{
    let x = num::BigInt::new(if a.negative { Sign::Minus } else { Sign::Plus }, a.digits.clone());
    let y = num::BigInt::new(if b.negative { Sign::Minus } else { Sign::Plus }, b.digits.clone());
    let (sign, digits) = (x % y).to_u32_digits();
    Integer { negative: sign == Sign::Minus, digits }
}

/// `num::BigInt` `&`: the bits that both have, in two's complement.
#[verifier::external_body]
pub(crate) fn bits_and(a: &Integer, b: &Integer) -> (r: Integer)
    requires
        a.wf(),
        b.wf(),
    ensures
        r.wf(),
        forall|i: nat| #[trigger] bit(r@, i) == (bit(a@, i) && bit(b@, i)),
{
    let x = num::BigInt::new(if a.negative { Sign::Minus } else { Sign::Plus }, a.digits.clone());
    let y = num::BigInt::new(if b.negative { Sign::Minus } else { Sign::Plus }, b.digits.clone());
    let (sign, digits) = (x & y).to_u32_digits();
    Integer { negative: sign == Sign::Minus, digits }
}

/// `num::BigInt` `|`: the bits that one of them has, in two's complement.
#[verifier::external_body]
pub(crate) fn bits_or(a: &Integer, b: &Integer) -> (r: Integer)
    requires
        a.wf(),
        b.wf(),
    ensures
        r.wf(),
        forall|i: nat| #[trigger] bit(r@, i) == (bit(a@, i) || bit(b@, i)),
{
    let x = num::BigInt::new(if a.negative { Sign::Minus } else { Sign::Plus }, a.digits.clone());
    let y = num::BigInt::new(if b.negative { Sign::Minus } else { Sign::Plus }, b.digits.clone());
    let (sign, digits) = (x | y).to_u32_digits();
    Integer { negative: sign == Sign::Minus, digits }
}

/// `num::BigInt` `^`: the bits that just one of them has, in two's complement.
#[verifier::external_body]
pub(crate) fn bits_xor(a: &Integer, b: &Integer) -> (r: Integer)
    requires
        a.wf(),
        b.wf(),
    ensures
        r.wf(),
        forall|i: nat| #[trigger] bit(r@, i) == (bit(a@, i) != bit(b@, i)),
{
    let x = num::BigInt::new(if a.negative { Sign::Minus } else { Sign::Plus }, a.digits.clone());
    let y = num::BigInt::new(if b.negative { Sign::Minus } else { Sign::Plus }, b.digits.clone());
    let (sign, digits) = (x ^ y).to_u32_digits();
    Integer { negative: sign == Sign::Minus, digits }
}

/// `num::BigInt` order: whether `a` is the smaller.
#[verifier::external_body]
pub(crate) fn below(a: &Integer, b: &Integer) -> (r: bool)
    requires
        a.wf(),
        b.wf(),
    ensures
        r == (a@ < b@),
{
    let x = num::BigInt::new(if a.negative { Sign::Minus } else { Sign::Plus }, a.digits.clone());
    let y = num::BigInt::new(if b.negative { Sign::Minus } else { Sign::Plus }, b.digits.clone());
    x < y
}

/// `num::BigInt::sqrt`: the square root, rounded down.
#[verifier::external_body]
pub(crate) fn root(a: &Integer) -> (r: Integer)
    requires
        a.wf(),
        a@ >= 0,
    ensures
        r.wf(),
        0 <= r@ && r@ * r@ <= a@ && a@ < (r@ + 1) * (r@ + 1),
{
    let x = num::BigInt::new(if a.negative { Sign::Minus } else { Sign::Plus }, a.digits.clone());
    let (sign, digits) = x.sqrt().to_u32_digits();
    Integer { negative: sign == Sign::Minus, digits }
}

/// `num::BigInt::from` on a machine integer: the same number.
#[verifier::external_body]
pub(crate) fn widened(v: i64) -> (r: Integer)
    ensures
        r.wf(),
        r@ == v,
{
    let (sign, digits) = num::BigInt::from(v).to_u32_digits();
    Integer { negative: sign == Sign::Minus, digits }
}

/// `num::BigInt`'s `FromStr`: the number that a signed decimal numeral stands for.
#[verifier::external_body]
pub(crate) fn parse(s: &str) -> (r: Option<Integer>)
    ensures
        r is Some <==> parsed(s@) is Some,
        r is Some ==> r->0.wf() && r->0@ == parsed(s@)->0,
{
    let x: num::BigInt = s.parse().ok()?;
    let (sign, digits) = x.to_u32_digits();
    Some(Integer { negative: sign == Sign::Minus, digits })
}

/// `num::BigInt`'s `Display`: the number in decimal.
#[verifier::external_body]
pub(crate) fn print(a: &Integer) -> (s: String)
    requires
        a.wf(),
    ensures
        s@ == signed_decimal(a@),
{
    let x = num::BigInt::new(if a.negative { Sign::Minus } else { Sign::Plus }, a.digits.clone());
    x.to_string()
}

/// A numeral's digits give the number back.
proof fn lemma_digits_of_decimal(n: nat)
    ensures
        digits_value(crate::text::decimal(n)) == Some(n),
        crate::text::decimal(n).len() > 0,
        '0' <= crate::text::decimal(n)[0] && crate::text::decimal(n)[0] <= '9',
    decreases n,
{
    let s = crate::text::decimal(n);
    reveal_with_fuel(digits_value, 2);
    assert(s.last() == crate::text::digit_char((n % 10) as int));
    assert(s.last() as u32 - '0' as u32 == n % 10);
    if n >= 10 {
        lemma_digits_of_decimal(n / 10);
        assert(s.drop_last() =~= crate::text::decimal(n / 10));
    } else {
        assert(s.drop_last() =~= Seq::empty());
    }
}

/// Parsing what printing gives returns the number.
pub proof fn parse_of_print(n: int)
    ensures
        parsed(signed_decimal(n)) == Some(n),
{
    if n < 0 {
        lemma_digits_of_decimal((-n) as nat);
        assert(signed_decimal(n).skip(1) =~= crate::text::decimal((-n) as nat));
    } else {
        lemma_digits_of_decimal(n as nat);
    }
}

} // verus!
