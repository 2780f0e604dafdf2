//! Integers as numbers, and numbers rounded to integers.
use vstd::prelude::*;
use vstd::arithmetic::power2::{pow2, lemma_pow2_pos, lemma_pow2_adds,
    lemma_pow2_strictly_increases};
use vstd::arithmetic::div_mod::lemma_fundamental_div_mod_converse;
use super::{mag, signed, Real};
use super::arith::{parts, with_sign, lemma_measured_exact, ONE_EXPONENT};
use super::rounding::{lemma_powers, nearest, rounded, split};

verus! {

/// One, in quanta.
pub open spec fn one_quanta() -> int {
    pow2(ONE_EXPONENT as nat) as int
}

/// The number nearest to the integer `n`.
pub open spec fn fint(n: int) -> Real {
    signed(false, rounded(n * one_quanta(), 1))
}

/// The integer nearest to a magnitude of `x` quanta, halves upwards.
pub open spec fn whole(x: int) -> int {
    (2 * x + one_quanta()) / (2 * one_quanta())
}

/// The number rounded to an integer, halves away from zero.
pub open spec fn finteger(a: Real) -> Real {
    if !a.finite() {
        a
    } else {
        signed(a.neg(), rounded(whole(mag(a.size())) * one_quanta(), 1))
    }
}

/// The integer that the number is rounded to, held within 64 bits; 0 for what is no number.
pub open spec fn to_integer(a: Real) -> int {
    if a.nan() {
        0
    } else {
        let n = if a.inf() {
            i64::MAX as int + 1
        } else {
            whole(mag(a.size()))
        };
        let s = if a.neg() {
            -n
        } else {
            n
        };
        if s > i64::MAX {
            i64::MAX as int
        } else if s < i64::MIN {
            i64::MIN as int
        } else {
            s
        }
    }
}

/// The integer nearest to a magnitude below 2^52.
fn whole_part(m: u64, t: u64, Ghost(x): Ghost<int>) -> (r: u64)
    requires
        m < 0x20_0000_0000_0000,
        t < 1074,
        x == m * pow2(t as nat),
    ensures
        r == whole(x),
        r <= 0x20_0000_0000_0000,
{
    let k: u64 = 1074 - t;
    let ghost o = one_quanta();
    let ghost v = pow2(t as nat) as int;
    let ghost w = pow2(k as nat) as int;
    proof {
        lemma_powers();
        lemma_pow2_pos(t as nat);
        lemma_pow2_pos(k as nat);
        lemma_pow2_adds(t as nat, k as nat);
        lemma_pow2_pos(ONE_EXPONENT as nat);
    }
    if k > 60 {
        proof {
            lemma_pow2_strictly_increases(54, k as nat);
            assert(2 * x + o < 2 * o) by (nonlinear_arith)
                requires x == m * v, o == v * w, 2 * m < w, 0 < v;
            assert(0 <= x) by (nonlinear_arith) requires x == m * v, 0 < v;
            lemma_fundamental_div_mod_converse(2 * x + o, 2 * o, 0, 2 * x + o);
        }
        return 0;
    }
    let (h, low) = split(m as u128, k as u32);
    let half: u128 = split(1u128 << (k as u128), 1).0;
    proof {
        super::rounding::lemma_shl(1u128, k as u128);
        vstd::arithmetic::power2::lemma_pow2_unfold(k as nat);
        assert(pow2(1) == 2);
        assert(h <= m) by (nonlinear_arith) requires m == h * w + low, 1 <= w, 0 <= low, 0 <= h;
    }
    let up: bool = low >= half;
    proof {
        assert(2 * half == w);
        let i = if up { h + 1 } else { h as int };
        let rem = if up { 2 * low - w } else { 2 * low + w };
        assert(2 * x + o == (2 * o) * i + rem * v) by (nonlinear_arith)
            requires
                x == m * v, o == v * w, m == h * w + low,
                (i == h && rem == 2 * low + w) || (i == h + 1 && rem == 2 * low - w);
        assert(0 <= rem * v < 2 * o) by (nonlinear_arith)
            requires 0 <= rem < 2 * w, o == v * w, 0 < v;
        assert(i * (2 * o) == (2 * o) * i) by (nonlinear_arith);
        lemma_fundamental_div_mod_converse(2 * x + o, 2 * o, i, rem * v);
    }
    if up { h as u64 + 1 } else { h as u64 }
}

/// A magnitude of 2^52 or more is an integer.
proof fn lemma_whole_large(m: int, t: int, x: int)
    requires
        1074 <= t,
        0 <= m,
        x == m * pow2(t as nat),
    ensures
        whole(x) * one_quanta() == x,
        whole(x) == m * pow2((t - 1074) as nat),
{
    let o = one_quanta();
    let w = pow2((t - 1074) as nat) as int;
    let i = m * w;
    lemma_pow2_adds((t - 1074) as nat, ONE_EXPONENT as nat);
    lemma_pow2_pos(ONE_EXPONENT as nat);
    assert(x == i * o) by (nonlinear_arith) requires x == m * (w * o), i == m * w;
    assert(2 * x + o == i * (2 * o) + o) by (nonlinear_arith) requires x == i * o;
    lemma_fundamental_div_mod_converse(2 * x + o, 2 * o, i, o);
}

impl Real {
    /// The number nearest to `n`.
    pub fn from_count(n: u64) -> (r: Real)
        ensures
            r == fint(n as int),
    {
        proof {
            lemma_powers();
            lemma_measured_exact(n * one_quanta(), n as int, 1074);
        }
        with_sign(false, nearest(n as u128, 1074, false, Ghost(n * one_quanta()), Ghost(1)))
    }

    /// The number rounded to an integer, halves away from zero.
    pub fn to_integral(self) -> (r: Real)
        ensures
            r == finteger(self),
    {
        if !self.is_finite() {
            return self;
        }
        let n: u64 = self.pattern();
        let neg: bool = self.is_negative();
        let (m, t) = parts(n);
        if t >= 1074 {
            proof {
                lemma_powers();
                lemma_whole_large(m as int, t as int, mag(n as int));
                lemma_measured_exact(mag(n as int), m as int, t as int);
            }
            return with_sign(neg, nearest(m as u128, t as i64, false, Ghost(mag(n as int)), Ghost(1)));
        }
        let w: u64 = whole_part(m, t, Ghost(mag(n as int)));
        proof {
            lemma_powers();
            lemma_measured_exact(w * one_quanta(), w as int, 1074);
        }
        with_sign(neg, nearest(w as u128, 1074, false, Ghost(w * one_quanta()), Ghost(1)))
    }

    /// The number rounded to an integer of 64 bits.
    pub fn to_i64(self) -> (r: i64)
        ensures
            r == to_integer(self),
    {
        if self.is_nan() {
            return 0;
        }
        let neg: bool = self.is_negative();
        if !self.is_finite() {
            return if neg { i64::MIN } else { i64::MAX };
        }
        let n: u64 = self.pattern();
        let (m, t) = parts(n);
        if t >= 1074 {
            let k: u64 = t - 1074;
            proof {
                lemma_powers();
                lemma_whole_large(m as int, t as int, mag(n as int));
            }
            if k >= 11 {
                proof {
                    let w = pow2(k as nat) as int;
                    assert(pow2(11) == 2048) by { vstd::arithmetic::power2::lemma2_to64(); }
                    if k > 11 {
                        lemma_pow2_strictly_increases(11, k as nat);
                    }
                    assert(0x8000_0000_0000_0000 <= m * w) by (nonlinear_arith)
                        requires 0x10_0000_0000_0000 <= m, 2048 <= w;
                }
                return if neg { i64::MIN } else { i64::MAX };
            }
            let x: u128 = (m as u128) << (k as u128);
            proof {
                let w = pow2(k as nat) as int;
                assert(pow2(10) == 1024) by { vstd::arithmetic::power2::lemma2_to64(); }
                if k < 10 {
                    lemma_pow2_strictly_increases(k as nat, 10);
                }
                assert(0 <= m * w < 0x8000_0000_0000_0000) by (nonlinear_arith)
                    requires 0 <= m < 0x20_0000_0000_0000, 0 <= w <= 1024;
                super::rounding::lemma_shl(m as u128, k as u128);
            }
            let y: i64 = x as i64;
            return if neg { -y } else { y };
        }
        let w: u64 = whole_part(m, t, Ghost(mag(n as int)));
        if neg { -(w as i64) } else { w as i64 }
    }
}

} // verus!
