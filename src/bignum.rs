//! Arbitrary-precision signed integers held as a sign and base 2^32 digits,
//! with arithmetic carried out by `num_bigint`.
use num_bigint::{BigInt, Sign};
use num_traits::{Signed, ToPrimitive};
use vstd::prelude::*;

verus! {

/// Value of little-endian base 2^32 digits.
pub open spec fn digits_value(d: Seq<u32>) -> nat
    decreases d.len(),
{
    if d.len() == 0 {
        0
    } else {
        d[0] as nat + 4294967296 * digits_value(d.subrange(1, d.len() as int))
    }
}

/// A signed integer of any size: `neg` gives the sign, `mag` the magnitude as
/// base 2^32 digits, least significant first. Any value of the fields is a
/// valid number (a negative zero is zero).
#[derive(Debug)]
pub struct BigNum {
    pub neg: bool,
    pub mag: Vec<u32>,
}

impl View for BigNum {
    type V = int;

    open spec fn view(&self) -> int {
        if self.neg {
            -digits_value(self.mag@)
        } else {
            digits_value(self.mag@) as int
        }
    }
}

pub open spec fn abs(x: int) -> int {
    if x < 0 {
        -x
    } else {
        x
    }
}

/// Quotient of division rounded toward zero.
pub open spec fn trunc_div(x: int, d: int) -> int {
    if (x >= 0) == (d > 0) {
        abs(x) / abs(d)
    } else {
        -(abs(x) / abs(d))
    }
}

/// Remainder of division rounded toward zero; it takes the sign of `x`.
pub open spec fn trunc_rem(x: int, d: int) -> int {
    if x >= 0 {
        abs(x) % abs(d)
    } else {
        -(abs(x) % abs(d))
    }
}

/// `s` is the floor of the square root of `n`.
pub open spec fn is_floor_sqrt(n: int, s: int) -> bool {
    0 <= s && s * s <= n && n < (s + 1) * (s + 1)
}

/// Relies on `&BigInt + &BigInt`: the exact sum.
#[verifier::external_body]
pub(crate) fn big_add(x: &BigNum, y: &BigNum) -> (r: BigNum)
    ensures
        r@ == x@ + y@,
{
    let s = &BigInt::from_slice(if x.neg { Sign::Minus } else { Sign::Plus }, &x.mag)
        + &BigInt::from_slice(if y.neg { Sign::Minus } else { Sign::Plus }, &y.mag);
    let (sign, mag) = s.to_u32_digits();
    BigNum { neg: sign == Sign::Minus, mag }
}

/// Relies on `&BigInt - &BigInt`: the exact difference.
#[verifier::external_body]
pub(crate) fn big_sub(x: &BigNum, y: &BigNum) -> (r: BigNum)
    ensures
        r@ == x@ - y@,
{
    let s = &BigInt::from_slice(if x.neg { Sign::Minus } else { Sign::Plus }, &x.mag)
        - &BigInt::from_slice(if y.neg { Sign::Minus } else { Sign::Plus }, &y.mag);
    let (sign, mag) = s.to_u32_digits();
    BigNum { neg: sign == Sign::Minus, mag }
}

/// Relies on `&BigInt * &BigInt`: the exact product.
#[verifier::external_body]
pub(crate) fn big_mul(x: &BigNum, y: &BigNum) -> (r: BigNum)
    ensures
        r@ == x@ * y@,
{
    let s = &BigInt::from_slice(if x.neg { Sign::Minus } else { Sign::Plus }, &x.mag)
        * &BigInt::from_slice(if y.neg { Sign::Minus } else { Sign::Plus }, &y.mag);
    let (sign, mag) = s.to_u32_digits();
    BigNum { neg: sign == Sign::Minus, mag }
}

/// Relies on `&BigInt / &BigInt`: division rounded toward zero; it panics on
/// a zero divisor.
#[verifier::external_body]
pub(crate) fn big_div(x: &BigNum, d: &BigNum) -> (r: BigNum)
    requires
        d@ != 0,
    ensures
        r@ == trunc_div(x@, d@),
{
    let s = &BigInt::from_slice(if x.neg { Sign::Minus } else { Sign::Plus }, &x.mag)
        / &BigInt::from_slice(if d.neg { Sign::Minus } else { Sign::Plus }, &d.mag);
    let (sign, mag) = s.to_u32_digits();
    BigNum { neg: sign == Sign::Minus, mag }
}

/// Relies on `&BigInt % &BigInt`: the remainder of division rounded toward
/// zero; it panics on a zero divisor.
#[verifier::external_body]
pub(crate) fn big_rem(x: &BigNum, d: &BigNum) -> (r: BigNum)
    requires
        d@ != 0,
    ensures
        r@ == trunc_rem(x@, d@),
{
    let s = &BigInt::from_slice(if x.neg { Sign::Minus } else { Sign::Plus }, &x.mag)
        % &BigInt::from_slice(if d.neg { Sign::Minus } else { Sign::Plus }, &d.mag);
    let (sign, mag) = s.to_u32_digits();
    BigNum { neg: sign == Sign::Minus, mag }
}

/// Relies on `Signed::abs` for `BigInt`: the absolute value.
#[verifier::external_body]
pub(crate) fn big_abs(x: &BigNum) -> (r: BigNum)
    ensures
        r@ == abs(x@),
{
    let s = BigInt::from_slice(if x.neg { Sign::Minus } else { Sign::Plus }, &x.mag).abs();
    let (sign, mag) = s.to_u32_digits();
    BigNum { neg: sign == Sign::Minus, mag }
}

/// Relies on `BigInt::sqrt`: the floor of the square root; it panics on a
/// negative number.
#[verifier::external_body]
pub(crate) fn big_sqrt(x: &BigNum) -> (r: BigNum)
    requires
        x@ >= 0,
    ensures
        is_floor_sqrt(x@, r@),
{
    let s = BigInt::from_slice(if x.neg { Sign::Minus } else { Sign::Plus }, &x.mag).sqrt();
    let (sign, mag) = s.to_u32_digits();
    BigNum { neg: sign == Sign::Minus, mag }
}

/// Relies on `Ord::cmp` for `BigInt`: the order of the two values.
#[verifier::external_body]
pub(crate) fn big_cmp(x: &BigNum, y: &BigNum) -> (r: core::cmp::Ordering)
    ensures
        (r == core::cmp::Ordering::Less) == (x@ < y@),
        (r == core::cmp::Ordering::Equal) == (x@ == y@),
        (r == core::cmp::Ordering::Greater) == (x@ > y@),
{
    BigInt::from_slice(if x.neg { Sign::Minus } else { Sign::Plus }, &x.mag).cmp(
        &BigInt::from_slice(if y.neg { Sign::Minus } else { Sign::Plus }, &y.mag),
    )
}

/// Relies on `BigInt::from(u64)`: the same value.
#[verifier::external_body]
pub(crate) fn big_from_u64(v: u64) -> (r: BigNum)
    ensures
        r@ == v as int,
{
    let (sign, mag) = BigInt::from(v).to_u32_digits();
    BigNum { neg: sign == Sign::Minus, mag }
}

/// Relies on `ToPrimitive::to_u64` for `BigInt`: the value when it fits in a
/// `u64`, else nothing.
#[verifier::external_body]
pub(crate) fn big_to_u64(x: &BigNum) -> (r: Option<u64>)
    ensures
        r.is_some() == (0 <= x@ <= u64::MAX),
        r.is_some() ==> r.unwrap() as int == x@,
{
    BigInt::from_slice(if x.neg { Sign::Minus } else { Sign::Plus }, &x.mag).to_u64()
}

impl BigNum {
    /// The number `v`.
    pub fn from_u64(v: u64) -> (r: BigNum)
        ensures
            r@ == v as int,
    {
        big_from_u64(v)
    }

    /// The value, when it lies in `0..=u64::MAX`.
    pub fn to_u64(&self) -> (r: Option<u64>)
        ensures
            r.is_some() == (0 <= self@ <= u64::MAX),
            r.is_some() ==> r.unwrap() as int == self@,
    {
        big_to_u64(self)
    }

    /// A copy of the same value.
    pub fn copy(&self) -> (r: BigNum)
        ensures
            r@ == self@,
    {
        let mag = self.mag.clone();
        assert(mag@ =~= self.mag@);
        BigNum { neg: self.neg, mag }
    }
}

} // verus!
