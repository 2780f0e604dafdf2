//! IEEE 754 binary64 numbers as bit patterns.
//!
//! The lower 63 bits of a pattern, read as an integer, count the representable
//! magnitudes upwards from zero; infinity is the last of them. Magnitudes are given in
//! quanta: multiples of the least positive number, 2^-1074.
use vstd::prelude::*;
use vstd::arithmetic::power2::pow2;

pub mod arith;
pub mod bounds;
pub mod consts;
pub mod convert;
pub mod error;
pub mod order;
pub mod rounding;
pub mod shape;
pub mod sums;

verus! {

/// 2^52, the number of magnitudes in one binade.
pub const BINADE: u64 = 0x0010_0000_0000_0000;

/// The sign bit.
pub const SIGN: u64 = 0x8000_0000_0000_0000;

/// The magnitude pattern of infinity.
pub const INF: u64 = 0x7ff0_0000_0000_0000;

/// The one pattern that arithmetic gives for "not a number".
pub const QUIET: u64 = 0x7ff8_0000_0000_0000;

/// A binary64 number.
#[derive(Clone, Copy, Debug)]
pub struct Real {
    pub bits: u64,
}

/// The number with the given pattern.
#[verifier::allow_in_spec]
pub fn lit(bits: u64) -> Real
    returns
        (Real { bits }),
{
    Real { bits }
}

/// The magnitude, in quanta, that the pattern `n` stands for. Patterns at and above
/// `INF` continue the same progression; none of them is a finite number.
pub open spec fn mag(n: int) -> int {
    if n < 2 * BINADE {
        n
    } else {
        (BINADE + n % (BINADE as int)) * pow2((n / (BINADE as int) - 1) as nat)
    }
}

impl Real {
    /// Whether the sign bit is set.
    pub open spec fn neg(self) -> bool {
        self.bits >= SIGN
    }

    /// The pattern without its sign.
    pub open spec fn size(self) -> int {
        if self.bits >= SIGN {
            self.bits - SIGN
        } else {
            self.bits as int
        }
    }

    pub open spec fn nan(self) -> bool {
        self.size() > INF
    }

    pub open spec fn inf(self) -> bool {
        self.size() == INF
    }

    pub open spec fn finite(self) -> bool {
        self.size() < INF
    }

    pub open spec fn zero(self) -> bool {
        self.size() == 0
    }

    /// The signed value of a finite number, in quanta.
    pub open spec fn value(self) -> int {
        if self.neg() {
            -mag(self.size())
        } else {
            mag(self.size())
        }
    }

    /// Where the number stands in the order of the reals: both zeros at 0, the
    /// infinities at the ends.
    pub open spec fn rank(self) -> int {
        if self.neg() {
            -self.size()
        } else {
            self.size()
        }
    }
}

/// The number with the given sign and magnitude pattern.
pub open spec fn signed(neg: bool, n: int) -> Real {
    Real {
        bits: if neg {
            (SIGN + n) as u64
        } else {
            n as u64
        },
    }
}

pub open spec fn flt(a: Real, b: Real) -> bool {
    !a.nan() && !b.nan() && a.rank() < b.rank()
}

pub open spec fn fle(a: Real, b: Real) -> bool {
    !a.nan() && !b.nan() && a.rank() <= b.rank()
}

pub open spec fn feq(a: Real, b: Real) -> bool {
    !a.nan() && !b.nan() && a.rank() == b.rank()
}

pub open spec fn fneg(a: Real) -> Real {
    Real {
        bits: if a.neg() {
            (a.bits - SIGN) as u64
        } else {
            (a.bits + SIGN) as u64
        },
    }
}

pub open spec fn fabs(a: Real) -> Real {
    Real { bits: a.size() as u64 }
}

/// The lesser of two numbers; a number that is not one gives way to the other.
pub open spec fn fmin(a: Real, b: Real) -> Real {
    if a.nan() || flt(b, a) {
        b
    } else {
        a
    }
}

/// The greater of two numbers; a number that is not one gives way to the other.
pub open spec fn fmax(a: Real, b: Real) -> Real {
    if a.nan() || flt(a, b) {
        b
    } else {
        a
    }
}

impl Real {
    pub fn from_bits(bits: u64) -> (r: Real)
        ensures
            r.bits == bits,
    {
        Real { bits }
    }

    pub fn to_bits(self) -> (r: u64)
        ensures
            r == self.bits,
    {
        self.bits
    }

    /// The pattern without its sign.
    pub fn pattern(self) -> (n: u64)
        ensures
            n == self.size(),
    {
        if self.bits >= SIGN {
            self.bits - SIGN
        } else {
            self.bits
        }
    }

    pub fn is_negative(self) -> (r: bool)
        ensures
            r == self.neg(),
    {
        self.bits >= SIGN
    }

    pub fn is_nan(self) -> (r: bool)
        ensures
            r == self.nan(),
    {
        self.pattern() > INF
    }

    pub fn is_finite(self) -> (r: bool)
        ensures
            r == self.finite(),
    {
        self.pattern() < INF
    }

    pub fn lt(self, other: Real) -> (r: bool)
        ensures
            r == flt(self, other),
    {
        if self.is_nan() || other.is_nan() {
            return false;
        }
        let a: u64 = self.pattern();
        let b: u64 = other.pattern();
        if self.is_negative() {
            if other.is_negative() {
                b < a
            } else {
                a > 0 || b > 0
            }
        } else if other.is_negative() {
            false
        } else {
            a < b
        }
    }

    pub fn le(self, other: Real) -> (r: bool)
        ensures
            r == fle(self, other),
    {
        !self.is_nan() && !other.is_nan() && !other.lt(self)
    }

    pub fn same(self, other: Real) -> (r: bool)
        ensures
            r == feq(self, other),
    {
        self.le(other) && other.le(self)
    }

    pub fn negated(self) -> (r: Real)
        ensures
            r == fneg(self),
    {
        if self.bits >= SIGN {
            Real { bits: self.bits - SIGN }
        } else {
            Real { bits: self.bits + SIGN }
        }
    }

    pub fn abs(self) -> (r: Real)
        ensures
            r == fabs(self),
    {
        Real { bits: self.pattern() }
    }

    pub fn min(self, other: Real) -> (r: Real)
        ensures
            r == fmin(self, other),
    {
        if self.is_nan() || other.lt(self) {
            other
        } else {
            self
        }
    }

    pub fn max(self, other: Real) -> (r: Real)
        ensures
            r == fmax(self, other),
    {
        if self.is_nan() || self.lt(other) {
            other
        } else {
            self
        }
    }
}

} // verus!
