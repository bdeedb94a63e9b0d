//! Arbitrary-precision integers for literals and constant evaluation.
//!
//! `IntValue` holds a sign and base 2^32 digits as plain values; the
//! arithmetic itself is done by `num_bigint`, behind the wrappers below.

use vstd::prelude::*;
use vstd::arithmetic::power2::pow2;
use crate::text::int_decimal;

verus! {

/// Base of the digits of an `IntValue`.
pub open spec fn digit_base() -> nat {
    0x1_0000_0000
}

/// The value of little-endian base 2^32 digits.
pub open spec fn digits_value(d: Seq<u32>) -> nat
    decreases d.len(),
{
    if d.len() == 0 {
        0
    } else {
        d[0] as nat + digit_base() * digits_value(d.drop_first())
    }
}

/// An arbitrary-precision integer: a sign flag and the magnitude as
/// little-endian base 2^32 digits.
#[derive(Clone, Debug)]
pub struct IntValue {
    negative: bool,
    digits: Vec<u32>,
}

impl View for IntValue {
    type V = int;

    closed spec fn view(&self) -> int {
        if self.negative {
            -(digits_value(self.digits@) as int)
        } else {
            digits_value(self.digits@) as int
        }
    }
}

/// Quotient of division rounded toward zero.
pub open spec fn trunc_div(a: int, b: int) -> int {
    let q = (if a < 0 { -a } else { a }) / (if b < 0 { -b } else { b });
    if (a < 0) != (b < 0) {
        -q
    } else {
        q
    }
}

/// Remainder of division rounded toward zero; it has the sign of `a`.
pub open spec fn trunc_rem(a: int, b: int) -> int {
    a - b * trunc_div(a, b)
}

/// Which bitwise operation `bitwise` applies.
pub enum BitOp {
    And,
    Or,
    Xor,
}

/// One bit of a bitwise operation.
pub open spec fn bit_result(op: BitOp, x: bool, y: bool) -> bool {
    match op {
        BitOp::And => x && y,
        BitOp::Or => x || y,
        BitOp::Xor => x != y,
    }
}

/// A bitwise operation on integers in infinite two's complement: the bits
/// are combined one by one from the least significant, and the (infinitely
/// repeated) sign bits are combined too.
pub open spec fn bitwise(op: BitOp, a: int, b: int) -> int
    decreases (if a < 0 { -a } else { a }) + (if b < 0 { -b } else { b }),
{
    if (a == 0 || a == -1) && (b == 0 || b == -1) {
        if bit_result(op, a == -1, b == -1) { -1 } else { 0 }
    } else {
        proof {
            lemma_half_shrinks(a);
            lemma_half_shrinks(b);
        }
        2 * bitwise(op, a / 2, b / 2) + (if bit_result(op, a % 2 == 1, b % 2 == 1) { 1int } else { 0int })
    }
}

/// Halving (rounding down) does not grow the magnitude, and shrinks it
/// unless the value is 0 or -1.
pub proof fn lemma_half_shrinks(a: int)
    ensures
        (if a / 2 < 0 { -(a / 2) } else { a / 2 }) <= (if a < 0 { -a } else { a }),
        !(a == 0 || a == -1) ==> (if a / 2 < 0 { -(a / 2) } else { a / 2 }) < (if a < 0 { -a } else { a }),
{
}

impl IntValue {
    pub fn zero() -> (r: IntValue)
        ensures
            r@ == 0,
    {
        IntValue { negative: false, digits: Vec::new() }
    }

    pub fn from_u32(v: u32) -> (r: IntValue)
        ensures
            r@ == v as int,
    {
        let mut digits = Vec::new();
        digits.push(v);
        proof {
            assert(digits@.drop_first() =~= Seq::<u32>::empty());
            reveal_with_fuel(digits_value, 2);
        }
        IntValue { negative: false, digits }
    }

    pub fn is_zero(&self) -> (r: bool)
        ensures
            r == (self@ == 0),
    {
        let mut i: usize = 0;
        while i < self.digits.len()
            invariant
                0 <= i <= self.digits@.len(),
                forall|k: int| 0 <= k < i ==> self.digits@[k] == 0,
            decreases self.digits@.len() - i,
        {
            if self.digits[i] != 0 {
                proof {
                    lemma_digits_nonzero(self.digits@, i as int);
                }
                return false;
            }
            i = i + 1;
        }
        proof {
            lemma_digits_zero(self.digits@);
        }
        true
    }

    /// The negated value.
    pub fn neg(&self) -> (r: IntValue)
        ensures
            r@ == -self@,
    {
        IntValue { negative: !self.negative, digits: self.digits.clone() }
    }

    /// A copy of the value.
    pub fn copy(&self) -> (r: IntValue)
        ensures
            r@ == self@,
    {
        IntValue { negative: self.negative, digits: self.digits.clone() }
    }

    /// Whether the value is negative.
    pub fn is_negative(&self) -> (r: bool)
        ensures
            r == (self@ < 0),
    {
        if self.negative {
            let z = self.is_zero();
            !z
        } else {
            false
        }
    }
}

/// Digits that are all zero have value zero.
pub proof fn lemma_digits_zero(d: Seq<u32>)
    requires
        forall|k: int| 0 <= k < d.len() ==> d[k] == 0,
    ensures
        digits_value(d) == 0,
    decreases d.len(),
{
    if d.len() > 0 {
        lemma_digits_zero(d.drop_first());
    }
}

/// A nonzero digit makes the value nonzero.
pub proof fn lemma_digits_nonzero(d: Seq<u32>, i: int)
    requires
        0 <= i < d.len(),
        d[i] != 0,
    ensures
        digits_value(d) > 0,
    decreases d.len(),
{
    if i > 0 {
        lemma_digits_nonzero(d.drop_first(), i - 1);
    }
}

/// Adds two integers (`BigInt + BigInt`).
#[verifier::external_body]
pub(crate) fn int_add(a: &IntValue, b: &IntValue) -> (r: IntValue)
    ensures
        r@ == a@ + b@,
{
    let x = num_bigint::BigInt::from_slice(if a.negative { num_bigint::Sign::Minus } else { num_bigint::Sign::Plus }, &a.digits);
    let y = num_bigint::BigInt::from_slice(if b.negative { num_bigint::Sign::Minus } else { num_bigint::Sign::Plus }, &b.digits);
    let (sign, digits) = (x + y).to_u32_digits();
    IntValue { negative: matches!(sign, num_bigint::Sign::Minus), digits }
}

/// Subtracts two integers (`BigInt - BigInt`).
#[verifier::external_body]
pub(crate) fn int_sub(a: &IntValue, b: &IntValue) -> (r: IntValue)
    ensures
        r@ == a@ - b@,
{
    let x = num_bigint::BigInt::from_slice(if a.negative { num_bigint::Sign::Minus } else { num_bigint::Sign::Plus }, &a.digits);
    let y = num_bigint::BigInt::from_slice(if b.negative { num_bigint::Sign::Minus } else { num_bigint::Sign::Plus }, &b.digits);
    let (sign, digits) = (x - y).to_u32_digits();
    IntValue { negative: matches!(sign, num_bigint::Sign::Minus), digits }
}

/// Multiplies two integers (`BigInt * BigInt`).
#[verifier::external_body]
pub(crate) fn int_mul(a: &IntValue, b: &IntValue) -> (r: IntValue)
    ensures
        r@ == a@ * b@,
{
    let x = num_bigint::BigInt::from_slice(if a.negative { num_bigint::Sign::Minus } else { num_bigint::Sign::Plus }, &a.digits);
    let y = num_bigint::BigInt::from_slice(if b.negative { num_bigint::Sign::Minus } else { num_bigint::Sign::Plus }, &b.digits);
    let (sign, digits) = (x * y).to_u32_digits();
    IntValue { negative: matches!(sign, num_bigint::Sign::Minus), digits }
}

/// Divides, rounding toward zero (`BigInt / BigInt`).
#[verifier::external_body]
pub(crate) fn int_div(a: &IntValue, b: &IntValue) -> (r: IntValue)
    requires
        b@ != 0,
    ensures
        r@ == trunc_div(a@, b@),
{
    let x = num_bigint::BigInt::from_slice(if a.negative { num_bigint::Sign::Minus } else { num_bigint::Sign::Plus }, &a.digits);
    let y = num_bigint::BigInt::from_slice(if b.negative { num_bigint::Sign::Minus } else { num_bigint::Sign::Plus }, &b.digits);
    let (sign, digits) = (x / y).to_u32_digits();
    IntValue { negative: matches!(sign, num_bigint::Sign::Minus), digits }
}

/// The remainder of division rounding toward zero (`BigInt % BigInt`).
#[verifier::external_body]
pub(crate) fn int_rem(a: &IntValue, b: &IntValue) -> (r: IntValue)
    requires
        b@ != 0,
    ensures
        r@ == trunc_rem(a@, b@),
{
    let x = num_bigint::BigInt::from_slice(if a.negative { num_bigint::Sign::Minus } else { num_bigint::Sign::Plus }, &a.digits);
    let y = num_bigint::BigInt::from_slice(if b.negative { num_bigint::Sign::Minus } else { num_bigint::Sign::Plus }, &b.digits);
    let (sign, digits) = (x % y).to_u32_digits();
    IntValue { negative: matches!(sign, num_bigint::Sign::Minus), digits }
}

/// Shifts left (`BigInt << usize`): multiplies by 2^shift. The shifted value
/// is allocated in full, so a very large shift is bounded only by memory.
#[verifier::external_body]
pub(crate) fn int_shl(a: &IntValue, shift: usize) -> (r: IntValue)
    ensures
        r@ == a@ * pow2(shift as nat),
{
    let x = num_bigint::BigInt::from_slice(if a.negative { num_bigint::Sign::Minus } else { num_bigint::Sign::Plus }, &a.digits);
    let (sign, digits) = (x << shift).to_u32_digits();
    IntValue { negative: matches!(sign, num_bigint::Sign::Minus), digits }
}

/// Shifts right (`BigInt >> usize`): divides by 2^shift rounding down.
#[verifier::external_body]
pub(crate) fn int_shr(a: &IntValue, shift: usize) -> (r: IntValue)
    ensures
        r@ == a@ / (pow2(shift as nat) as int),
{
    let x = num_bigint::BigInt::from_slice(if a.negative { num_bigint::Sign::Minus } else { num_bigint::Sign::Plus }, &a.digits);
    let (sign, digits) = (x >> shift).to_u32_digits();
    IntValue { negative: matches!(sign, num_bigint::Sign::Minus), digits }
}

/// Bitwise and in two's complement (`BigInt & BigInt`).
#[verifier::external_body]
pub(crate) fn int_bitand(a: &IntValue, b: &IntValue) -> (r: IntValue)
    ensures
        r@ == bitwise(BitOp::And, a@, b@),
{
    let x = num_bigint::BigInt::from_slice(if a.negative { num_bigint::Sign::Minus } else { num_bigint::Sign::Plus }, &a.digits);
    let y = num_bigint::BigInt::from_slice(if b.negative { num_bigint::Sign::Minus } else { num_bigint::Sign::Plus }, &b.digits);
    let (sign, digits) = (x & y).to_u32_digits();
    IntValue { negative: matches!(sign, num_bigint::Sign::Minus), digits }
}

/// Bitwise or in two's complement (`BigInt | BigInt`).
#[verifier::external_body]
pub(crate) fn int_bitor(a: &IntValue, b: &IntValue) -> (r: IntValue)
    ensures
        r@ == bitwise(BitOp::Or, a@, b@),
{
    let x = num_bigint::BigInt::from_slice(if a.negative { num_bigint::Sign::Minus } else { num_bigint::Sign::Plus }, &a.digits);
    let y = num_bigint::BigInt::from_slice(if b.negative { num_bigint::Sign::Minus } else { num_bigint::Sign::Plus }, &b.digits);
    let (sign, digits) = (x | y).to_u32_digits();
    IntValue { negative: matches!(sign, num_bigint::Sign::Minus), digits }
}

/// Bitwise exclusive or in two's complement (`BigInt ^ BigInt`).
#[verifier::external_body]
pub(crate) fn int_bitxor(a: &IntValue, b: &IntValue) -> (r: IntValue)
    ensures
        r@ == bitwise(BitOp::Xor, a@, b@),
{
    let x = num_bigint::BigInt::from_slice(if a.negative { num_bigint::Sign::Minus } else { num_bigint::Sign::Plus }, &a.digits);
    let y = num_bigint::BigInt::from_slice(if b.negative { num_bigint::Sign::Minus } else { num_bigint::Sign::Plus }, &b.digits);
    let (sign, digits) = (x ^ y).to_u32_digits();
    IntValue { negative: matches!(sign, num_bigint::Sign::Minus), digits }
}

/// The value as a `usize`, when it is one (`ToPrimitive::to_usize`).
#[verifier::external_body]
pub(crate) fn int_to_usize(a: &IntValue) -> (r: Option<usize>)
    ensures
        r matches Some(n) ==> n as int == a@,
        r is None ==> (a@ < 0 || a@ > usize::MAX),
{
    let x = num_bigint::BigInt::from_slice(if a.negative { num_bigint::Sign::Minus } else { num_bigint::Sign::Plus }, &a.digits);
    num_traits::ToPrimitive::to_usize(&x)
}

/// Whether `a <= b` (`BigInt` ordering).
#[verifier::external_body]
pub(crate) fn int_le(a: &IntValue, b: &IntValue) -> (r: bool)
    ensures
        r == (a@ <= b@),
{
    let x = num_bigint::BigInt::from_slice(if a.negative { num_bigint::Sign::Minus } else { num_bigint::Sign::Plus }, &a.digits);
    let y = num_bigint::BigInt::from_slice(if b.negative { num_bigint::Sign::Minus } else { num_bigint::Sign::Plus }, &b.digits);
    x <= y
}

/// Whether the two integers are equal (`BigInt` equality).
#[verifier::external_body]
pub(crate) fn int_eq(a: &IntValue, b: &IntValue) -> (r: bool)
    ensures
        r == (a@ == b@),
{
    let x = num_bigint::BigInt::from_slice(if a.negative { num_bigint::Sign::Minus } else { num_bigint::Sign::Plus }, &a.digits);
    let y = num_bigint::BigInt::from_slice(if b.negative { num_bigint::Sign::Minus } else { num_bigint::Sign::Plus }, &b.digits);
    x == y
}

/// The value of a string of decimal digits.
pub open spec fn decimal_value(s: Seq<char>) -> nat
    decreases s.len(),
{
    if s.len() == 0 {
        0
    } else {
        10 * decimal_value(s.drop_last()) + ((s.last() as u32) - ('0' as u32)) as nat
    }
}

/// Whether every character is an ASCII digit.
pub open spec fn all_digits(s: Seq<char>) -> bool {
    forall|i: int| 0 <= i < s.len() ==> '0' <= #[trigger] s[i] <= '9'
}

/// Parses a nonempty string of decimal digits (`str::parse::<BigInt>`).
#[verifier::external_body]
pub(crate) fn int_from_decimal(s: &str) -> (r: IntValue)
    requires
        s@.len() > 0,
        all_digits(s@),
    ensures
        r@ == decimal_value(s@),
{
    let x: num_bigint::BigInt = s.parse().unwrap();
    let (sign, digits) = x.to_u32_digits();
    IntValue { negative: matches!(sign, num_bigint::Sign::Minus), digits }
}

/// The decimal rendering of the value (`BigInt` as `Display`).
#[verifier::external_body]
pub(crate) fn int_to_string(a: &IntValue) -> (r: String)
    ensures
        r@ == int_decimal(a@),
{
    let x = num_bigint::BigInt::from_slice(if a.negative { num_bigint::Sign::Minus } else { num_bigint::Sign::Plus }, &a.digits);
    x.to_string()
}

} // verus!
