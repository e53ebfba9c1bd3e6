//! The number format: IEEE 754 binary32, held as its bit pattern.
//!
//! A pattern is a sign bit above a 31-bit magnitude. Magnitudes below [`INF`] are finite,
//! [`INF`] is infinity, the ones above are NaN. Magnitudes are ordered as the numbers that
//! they stand for, and two neighbouring magnitudes stand for neighbouring numbers.

use vstd::arithmetic::power2::*;
use vstd::prelude::*;

verus! {

/// The sign bit.
pub const SIGN: u32 = 0x8000_0000;

/// The magnitude of infinity.
pub const INF: u32 = 0x7f80_0000;

/// The first magnitude with an exponent: below it the numbers are subnormal.
pub const NORMAL: u32 = 0x0080_0000;

/// A binary32 number. Two of them are equal as values of this type when their bit patterns are:
/// the two zeros differ, and a NaN equals itself.
#[derive(Clone, Copy, Debug, PartialEq, Eq, Structural)]
pub struct F32 {
    pub bits: u32,
}

/// The pattern of positive zero.
pub const ZERO: u32 = 0;

/// The pattern of one.
pub const ONE: u32 = 0x3f80_0000;

/// The pattern of the NaN that every invalid operation returns.
pub const NAN: u32 = 0x7fc0_0000;

/// The pattern of negative infinity.
pub const NEG_INFINITY: u32 = 0xff80_0000;

/// What a magnitude stands for, counted in units of 2^-149, the smallest subnormal number.
/// The magnitude of infinity counts as 2^128, the number that would follow the largest finite one.
pub open spec fn units(m: nat) -> nat {
    if m < NORMAL {
        m
    } else {
        (NORMAL + m % (NORMAL as nat)) as nat * pow2((m / (NORMAL as nat) - 1) as nat)
    }
}

/// `m` is the magnitude nearest to `num / den` units, ties going to the even one. Counting
/// infinity as 2^128 makes this the overflow rule too.
pub open spec fn is_nearest(num: nat, den: nat, m: nat) -> bool {
    &&& m <= INF
    &&& m > 0 ==> {
        let middle = (units((m - 1) as nat) + units(m)) * den;
        middle < 2 * num || (middle == 2 * num && m % 2 == 0)
    }
    &&& m < INF ==> {
        let middle = (units(m) + units(m + 1)) * den;
        2 * num < middle || (2 * num == middle && m % 2 == 0)
    }
}

/// The magnitude nearest to `num / den` units.
pub open spec fn nearest(num: nat, den: nat) -> nat {
    choose|m: nat| is_nearest(num, den, m)
}

/// The number with this sign and magnitude.
pub open spec fn assemble(negative: bool, m: nat) -> F32 {
    F32 { bits: (if negative { SIGN + m } else { m as int }) as u32 }
}

impl F32 {
    /// The sign bit is set.
    pub open spec fn negative(self) -> bool {
        self.bits >= SIGN
    }

    /// The pattern without its sign bit.
    pub open spec fn magnitude(self) -> nat {
        if self.bits >= SIGN {
            (self.bits - SIGN) as nat
        } else {
            self.bits as nat
        }
    }

    /// Not a number.
    pub open spec fn nan(self) -> bool {
        self.magnitude() > INF
    }

    /// An infinity.
    pub open spec fn infinite(self) -> bool {
        self.magnitude() == INF
    }

    /// A finite number.
    pub open spec fn finite(self) -> bool {
        self.magnitude() < INF
    }

    /// The place of a number among all numbers that are not NaN: the two zeros share place 0.
    pub open spec fn rank(self) -> int {
        if self.negative() {
            -(self.magnitude() as int)
        } else {
            self.magnitude() as int
        }
    }

    /// What a finite number stands for, in units of 2^-149.
    pub open spec fn value(self) -> int {
        if self.negative() {
            -(units(self.magnitude()) as int)
        } else {
            units(self.magnitude()) as int
        }
    }

    /// The number with this bit pattern.
    pub fn from_bits(bits: u32) -> (r: F32)
        ensures
            r.bits == bits,
    {
        F32 { bits }
    }

    /// The bit pattern.
    pub fn to_bits(self) -> (r: u32)
        ensures
            r == self.bits,
    {
        self.bits
    }

    pub(crate) fn is_negative(self) -> (r: bool)
        ensures
            r == self.negative(),
    {
        self.bits >= SIGN
    }

    pub(crate) fn to_magnitude(self) -> (r: u32)
        ensures
            r == self.magnitude(),
    {
        if self.bits >= SIGN {
            self.bits - SIGN
        } else {
            self.bits
        }
    }

    pub(crate) fn from_parts(negative: bool, magnitude: u32) -> (r: F32)
        requires
            magnitude < SIGN,
        ensures
            r == assemble(negative, magnitude as nat),
            r.negative() == negative,
            r.magnitude() == magnitude,
    {
        if negative {
            F32 { bits: SIGN + magnitude }
        } else {
            F32 { bits: magnitude }
        }
    }

    /// Whether the number is a NaN.
    pub fn is_nan(self) -> (r: bool)
        ensures
            r == self.nan(),
    {
        self.to_magnitude() > INF
    }

    /// Whether the number is neither infinite nor a NaN.
    pub fn is_finite(self) -> (r: bool)
        ensures
            r == self.finite(),
    {
        self.to_magnitude() < INF
    }

    /// The number without its sign.
    pub fn abs(self) -> (r: F32)
        ensures
            r == assemble(false, self.magnitude()),
    {
        F32::from_parts(false, self.to_magnitude())
    }

    /// The number with its sign turned.
    pub fn neg(self) -> (r: F32)
        ensures
            r == opposite(self),
    {
        F32::from_parts(!self.is_negative(), self.to_magnitude())
    }

    /// `self > other`: false as soon as one of the two is a NaN.
    pub fn gt(self, other: F32) -> (r: bool)
        ensures
            r == above(self, other),
    {
        if self.is_nan() || other.is_nan() {
            false
        } else if self.is_negative() {
            other.is_negative() && self.to_magnitude() < other.to_magnitude()
        } else if other.is_negative() {
            self.to_magnitude() > 0 || other.to_magnitude() > 0
        } else {
            self.to_magnitude() > other.to_magnitude()
        }
    }

    /// The larger of two numbers; where one is a NaN, the other one. Of the two zeros it takes
    /// `other`.
    pub fn max(self, other: F32) -> (r: F32)
        ensures
            r == larger(self, other),
    {
        if self.is_nan() {
            other
        } else if other.is_nan() || self.gt(other) {
            self
        } else {
            other
        }
    }
}

/// `a` with its sign turned.
pub open spec fn opposite(a: F32) -> F32 {
    assemble(!a.negative(), a.magnitude())
}

/// `a > b`.
pub open spec fn above(a: F32, b: F32) -> bool {
    !a.nan() && !b.nan() && a.rank() > b.rank()
}

/// The larger of `own` and `other`, a NaN giving way to the other number.
pub open spec fn larger(own: F32, other: F32) -> F32 {
    if own.nan() {
        other
    } else if other.nan() || above(own, other) {
        own
    } else {
        other
    }
}

} // verus!
