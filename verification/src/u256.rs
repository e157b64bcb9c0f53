//! 256-bit unsigned integers for prices and quantities.
//!
//! A value is held as four 64-bit limbs, least significant first, and is seen
//! in specifications as the natural number the limbs spell. Arithmetic and
//! ordering are delegated to `alloy::primitives::U256`.

use vstd::prelude::*;

verus! {

/// The natural number spelled by four 64-bit limbs, least significant first.
pub open spec fn limbs_value(limbs: [u64; 4]) -> nat {
    (limbs[0] + limbs[1] * 0x1_0000_0000_0000_0000int + limbs[2]
        * 0x1_0000_0000_0000_0000_0000_0000_0000_0000int + limbs[3]
        * 0x1_0000_0000_0000_0000_0000_0000_0000_0000_0000_0000_0000_0000int) as nat
}

/// 2^256, one more than the largest value a `U256` can hold.
pub open spec fn modulus() -> nat {
    0x1_0000_0000_0000_0000_0000_0000_0000_0000_0000_0000_0000_0000_0000_0000_0000_0000nat
}

/// An unsigned 256-bit integer.
#[derive(Clone, Copy, Debug, PartialEq, Eq)]
pub struct U256 {
    limbs: [u64; 4],
}

impl View for U256 {
    type V = nat;

    closed spec fn view(&self) -> nat {
        limbs_value(self.limbs)
    }
}

impl U256 {
    /// The largest representable value, 2^256 - 1.
    pub open spec fn max() -> nat {
        (modulus() - 1) as nat
    }

    /// Every value lies below 2^256.
    pub proof fn lemma_bounded(self)
        ensures
            self@ <= Self::max(),
    {
    }

    /// Builds a value from its limbs, least significant first.
    pub fn from_limbs(limbs: [u64; 4]) -> (r: U256)
        ensures
            r@ == limbs_value(limbs),
    {
        U256 { limbs }
    }

    /// The limbs of the value, least significant first.
    pub fn into_limbs(self) -> (limbs: [u64; 4])
        ensures
            limbs_value(limbs) == self@,
    {
        self.limbs
    }

    /// Widens a 64-bit integer.
    pub fn from_u64(x: u64) -> (r: U256)
        ensures
            r@ == x,
    {
        U256 { limbs: [x, 0, 0, 0] }
    }

    /// The value zero.
    pub fn zero() -> (r: U256)
        ensures
            r@ == 0,
    {
        U256 { limbs: [0, 0, 0, 0] }
    }

    /// The largest representable value.
    pub fn max_value() -> (r: U256)
        ensures
            r@ == Self::max(),
    {
        U256 { limbs: [u64::MAX, u64::MAX, u64::MAX, u64::MAX] }
    }

    /// Whether `self` is strictly below `other`.
    pub fn lt(&self, other: &U256) -> (r: bool)
        ensures
            r == (self@ < other@),
    {
        alloy_lt(self, other)
    }

    /// Whether `self` is strictly above `other`.
    pub fn gt(&self, other: &U256) -> (r: bool)
        ensures
            r == (self@ > other@),
    {
        alloy_lt(other, self)
    }

    /// Whether `self` is at most `other`.
    pub fn le(&self, other: &U256) -> (r: bool)
        ensures
            r == (self@ <= other@),
    {
        !alloy_lt(other, self)
    }

    /// Whether `self` is at least `other`.
    pub fn ge(&self, other: &U256) -> (r: bool)
        ensures
            r == (self@ >= other@),
    {
        !alloy_lt(self, other)
    }

    /// Whether the two values are the same number.
    pub fn same(&self, other: &U256) -> (r: bool)
        ensures
            r == (self@ == other@),
    {
        !alloy_lt(self, other) && !alloy_lt(other, self)
    }

    /// Whether the value is zero.
    pub fn is_zero(&self) -> (r: bool)
        ensures
            r == (self@ == 0),
    {
        let zero = U256::zero();
        !alloy_lt(&zero, self)
    }

    /// Whether the value is the largest representable one.
    pub fn is_max(&self) -> (r: bool)
        ensures
            r == (self@ == Self::max()),
    {
        proof {
            self.lemma_bounded();
        }
        let max = U256::max_value();
        !alloy_lt(self, &max)
    }

    /// `self - rhs`, or `None` where `rhs` exceeds `self`.
    pub fn checked_sub(self, rhs: U256) -> (r: Option<U256>)
        ensures
            match r {
                Some(d) => self@ >= rhs@ && d@ == self@ - rhs@,
                None => self@ < rhs@,
            },
    {
        if alloy_lt(&self, &rhs) {
            None
        } else {
            Some(alloy_wrapping_sub(self, rhs))
        }
    }

    /// `self + rhs`, or `None` where the sum does not fit in 256 bits.
    pub fn checked_add(self, rhs: U256) -> (r: Option<U256>)
        ensures
            match r {
                Some(s) => s@ == self@ + rhs@,
                None => self@ + rhs@ > Self::max(),
            },
    {
        proof {
            self.lemma_bounded();
            rhs.lemma_bounded();
        }
        let sum = alloy_wrapping_add(self, rhs);
        if alloy_lt(&sum, &self) {
            None
        } else {
            Some(sum)
        }
    }
}

/// Strict order on values. Not proved: the limbs are handed to
/// `alloy::primitives::U256::from_limbs`, which takes them least significant
/// first, and the two numbers are compared with `<` of that type, which is
/// the order of the numbers.
#[verifier::external_body]
fn alloy_lt(a: &U256, b: &U256) -> (r: bool)
    ensures
        r == (a@ < b@),
{
    alloy::primitives::U256::from_limbs(a.limbs) < alloy::primitives::U256::from_limbs(b.limbs)
}

/// Difference modulo 2^256. Not proved: `wrapping_sub` of
/// `alloy::primitives::U256` computes `a - b` and wraps around at the
/// boundary of the type, so that 2^256 is added where `b` exceeds `a`. The
/// limbs go in by `from_limbs` and come out by `into_limbs`, both least
/// significant first.
#[verifier::external_body]
fn alloy_wrapping_sub(a: U256, b: U256) -> (r: U256)
    ensures
        a@ >= b@ ==> r@ == a@ - b@,
        a@ < b@ ==> r@ == a@ - b@ + modulus(),
{
    let x = alloy::primitives::U256::from_limbs(a.limbs);
    let y = alloy::primitives::U256::from_limbs(b.limbs);
    U256 { limbs: x.wrapping_sub(y).into_limbs() }
}

/// Sum modulo 2^256. Not proved: `wrapping_add` of
/// `alloy::primitives::U256` computes `a + b` and wraps around at the
/// boundary of the type, so that 2^256 is taken off where the sum does not
/// fit. The limbs go in by `from_limbs` and come out by `into_limbs`, both
/// least significant first.
#[verifier::external_body]
fn alloy_wrapping_add(a: U256, b: U256) -> (r: U256)
    ensures
        a@ + b@ < modulus() ==> r@ == a@ + b@,
        a@ + b@ >= modulus() ==> r@ == a@ + b@ - modulus(),
{
    let x = alloy::primitives::U256::from_limbs(a.limbs);
    let y = alloy::primitives::U256::from_limbs(b.limbs);
    U256 { limbs: x.wrapping_add(y).into_limbs() }
}

} // verus!
