//! Correctly rounded sums, differences, products and quotients.
use vstd::prelude::*;
use vstd::arithmetic::power2::{pow2, lemma_pow2_pos, lemma_pow2_adds,
    lemma_pow2_strictly_increases};
use vstd::arithmetic::div_mod::lemma_fundamental_div_mod;
use super::{mag, signed, fneg, Real, BINADE, INF, QUIET, SIGN};
use super::rounding::{bit_len, lemma_mag, lemma_mag_monotone, lemma_mag_next, lemma_powers,
    lemma_shl, measured, nearest, rounded, OFFSET};

verus! {

/// The distance between the quantum and one, as a power of two.
pub const ONE_EXPONENT: u64 = 1074;

/// The number nearest to a non-zero `p / q` quanta.
pub open spec fn fround(p: int, q: int) -> Real {
    signed(p < 0, rounded(if p < 0 { -p } else { p }, q))
}

/// The sum of two numbers, rounded to the nearest.
pub open spec fn fadd(a: Real, b: Real) -> Real {
    if a.nan() || b.nan() || (a.inf() && b.inf() && a.neg() != b.neg()) {
        Real { bits: QUIET }
    } else if a.inf() {
        a
    } else if b.inf() {
        b
    } else if a.value() + b.value() == 0 {
        signed(a.neg() && b.neg(), 0)
    } else {
        fround(a.value() + b.value(), 1)
    }
}

/// The difference of two numbers, rounded to the nearest.
pub open spec fn fsub(a: Real, b: Real) -> Real {
    fadd(a, fneg(b))
}

/// The product of two numbers, rounded to the nearest.
pub open spec fn fmul(a: Real, b: Real) -> Real {
    let minus = a.neg() != b.neg();
    if a.nan() || b.nan() || (a.inf() && b.zero()) || (a.zero() && b.inf()) {
        Real { bits: QUIET }
    } else if a.inf() || b.inf() {
        signed(minus, INF as int)
    } else {
        signed(minus, rounded(mag(a.size()) * mag(b.size()), pow2(ONE_EXPONENT as nat) as int))
    }
}

/// The quotient of two numbers, rounded to the nearest.
pub open spec fn fdiv(a: Real, b: Real) -> Real {
    let minus = a.neg() != b.neg();
    if a.nan() || b.nan() || (a.inf() && b.inf()) || (a.zero() && b.zero()) {
        Real { bits: QUIET }
    } else if a.inf() || b.zero() {
        signed(minus, INF as int)
    } else if b.inf() {
        signed(minus, 0)
    } else {
        signed(minus, rounded(mag(a.size()) * pow2(ONE_EXPONENT as nat), mag(b.size())))
    }
}

/// Significand and binade of a finite magnitude.
pub fn parts(n: u64) -> (r: (u64, u64))
    requires
        n < INF,
    ensures
        mag(n as int) == r.0 * pow2(r.1 as nat),
        r.0 < 2 * BINADE,
        r.1 <= 2045,
        r.1 > 0 ==> BINADE <= r.0,
        r.0 == 0 <==> n == 0,
        n == r.1 * BINADE + r.0,
{
    proof {
        lemma_powers();
    }
    if n < 2 * BINADE {
        proof {
            let w = pow2(0) as int;
            assert(n * w == n) by (nonlinear_arith) requires w == 1;
        }
        (n, 0)
    } else {
        let f: u64 = n % BINADE;
        let t: u64 = n / BINADE - 1;
        proof {
            lemma_fundamental_div_mod(n as int, BINADE as int);
            lemma_mag(t as int, BINADE + f);
        }
        (BINADE + f, t)
    }
}

/// The number with the given sign and magnitude pattern.
pub fn with_sign(neg: bool, n: u64) -> (r: Real)
    requires
        n <= INF,
    ensures
        r == signed(neg, n as int),
{
    if neg {
        Real { bits: SIGN + n }
    } else {
        Real { bits: n }
    }
}

/// An exact number of units measures its own value.
pub proof fn lemma_measured_exact(p: int, m: int, e: int)
    requires
        0 <= e,
        p == m * pow2(e as nat),
    ensures
        measured(p, 1, m, e, false),
{
    let c = pow2(OFFSET as nat) as int;
    let v = pow2(e as nat) as int;
    lemma_pow2_pos(OFFSET as nat);
    lemma_pow2_pos(e as nat);
    lemma_pow2_adds(e as nat, OFFSET as nat);
    assert(p * c == m * (1 * (v * c))) by (nonlinear_arith) requires p == m * v;
    let unit = 1 * (v * c);
    assert(0 < unit) by (nonlinear_arith) requires unit == v * c, 0 < v, 0 < c;
    assert(m * unit < (m + 1) * unit) by (nonlinear_arith) requires 0 < unit;
}

/// A part of a unit more, or less, than a whole number of units.
proof fn lemma_measured_rest(p: int, m: int, e: int)
    requires
        0 <= e,
        m * pow2(e as nat) < p < (m + 1) * pow2(e as nat),
    ensures
        measured(p, 1, m, e, true),
{
    let c = pow2(OFFSET as nat) as int;
    let v = pow2(e as nat) as int;
    lemma_pow2_pos(OFFSET as nat);
    lemma_pow2_adds(e as nat, OFFSET as nat);
    assert(m * (1 * (v * c)) < p * c < (m + 1) * (1 * (v * c))) by (nonlinear_arith)
        requires m * v < p < (m + 1) * v, 0 < c;
}

/// The pattern nearest to the sum, or the difference, of two magnitudes, the binade of
/// the first at least that of the second.
fn combine(m1: u64, t1: u64, m2: u64, t2: u64, minus: bool, Ghost(p): Ghost<int>) -> (r: (bool, u64))
    requires
        t2 <= t1 <= 2045,
        m1 < 2 * BINADE,
        m2 < 2 * BINADE,
        t1 > 0 ==> BINADE <= m1,
        p == (if minus {
            m1 * pow2(t1 as nat) - m2 * pow2(t2 as nat)
        } else {
            m1 * pow2(t1 as nat) + m2 * pow2(t2 as nat)
        }),
    ensures
        r.0 == (p < 0),
        r.1 == rounded(if p < 0 { -p } else { p }, 1),
        r.1 <= INF,
{
    let d: u64 = t1 - t2;
    let ghost v1 = pow2(t1 as nat) as int;
    let ghost v2 = pow2(t2 as nat) as int;
    proof {
        lemma_powers();
        lemma_pow2_pos(t1 as nat);
        lemma_pow2_pos(t2 as nat);
    }
    if d <= 64 {
        proof {
            lemma_pow2_adds(d as nat, t2 as nat);
            let w = pow2(d as nat) as int;
            lemma_pow2_pos(d as nat);
            if d < 64 {
                lemma_pow2_strictly_increases(d as nat, 64);
            }
            assert(m1 * w <= 2 * BINADE * 0x1_0000_0000_0000_0000) by (nonlinear_arith)
                requires m1 <= 2 * BINADE, w <= 0x1_0000_0000_0000_0000, 0 <= w;
            lemma_shl(m1 as u128, d as u128);
            assert((m1 * w) * v2 == m1 * v1) by (nonlinear_arith) requires w * v2 == v1;
        }
        let x: u128 = (m1 as u128) << (d as u128);
        let y: u128 = m2 as u128;
        if !minus {
            proof {
                assert((x + y) * v2 == p) by (nonlinear_arith)
                    requires x * v2 == m1 * v1, p == m1 * v1 + m2 * v2, y == m2;
                assert(0 <= (x + y) * v2) by (nonlinear_arith) requires 0 <= x + y, 0 < v2;
                lemma_measured_exact(p, x + y, t2 as int);
            }
            (false, nearest(x + y, t2 as i64, false, Ghost(p), Ghost(1)))
        } else if x >= y {
            proof {
                assert((x - y) * v2 == p) by (nonlinear_arith)
                    requires x * v2 == m1 * v1, p == m1 * v1 - m2 * v2, y == m2;
                assert(0 <= (x - y) * v2) by (nonlinear_arith) requires 0 <= x - y, 0 < v2;
                lemma_measured_exact(p, x - y, t2 as int);
            }
            (false, nearest(x - y, t2 as i64, false, Ghost(p), Ghost(1)))
        } else {
            proof {
                assert((y - x) * v2 == -p) by (nonlinear_arith)
                    requires x * v2 == m1 * v1, p == m1 * v1 - m2 * v2, y == m2;
                assert(0 < (y - x) * v2) by (nonlinear_arith) requires 0 < y - x, 0 < v2;
                lemma_measured_exact(-p, y - x, t2 as int);
            }
            (true, nearest(y - x, t2 as i64, false, Ghost(-p), Ghost(1)))
        }
    } else if m2 == 0 {
        proof {
            assert(m2 * v2 == 0) by (nonlinear_arith) requires m2 == 0;
            assert(0 <= m1 * v1) by (nonlinear_arith) requires 0 <= m1, 0 < v1;
            lemma_measured_exact(p, m1 as int, t1 as int);
        }
        (false, nearest(m1 as u128, t1 as i64, false, Ghost(p), Ghost(1)))
    } else {
        // the second magnitude is a fraction of the unit 2^(t1 - 10)
        let x: u128 = (m1 as u128) * 1024;
        let e: u64 = t1 - 10;
        proof {
            let u = pow2(e as nat) as int;
            lemma_pow2_adds(e as nat, 10);
            assert(pow2(10) == 1024) by { vstd::arithmetic::power2::lemma2_to64(); }
            assert(x * u == m1 * v1) by (nonlinear_arith) requires x == m1 * 1024, u * 1024 == v1;
            lemma_pow2_adds(t2 as nat, 55);
            assert(pow2(55) == 8 * BINADE) by { vstd::arithmetic::power2::lemma2_to64_rest(); }
            if t2 + 55 < e {
                lemma_pow2_strictly_increases((t2 + 55) as nat, e as nat);
            }
            let z = m2 * v2;
            assert(0 < z) by (nonlinear_arith) requires z == m2 * v2, 0 < m2, 0 < v2;
            assert(z < u) by (nonlinear_arith)
                requires z == m2 * v2, m2 < 2 * BINADE, v2 * (8 * BINADE) <= u, 0 < v2;
            assert((x + 1) * u == x * u + u) by (nonlinear_arith);
            assert((x - 1) * u == x * u - u) by (nonlinear_arith);
            if minus {
                assert(0 < (x - 1) * u) by (nonlinear_arith) requires 1 < x, 0 < u;
                lemma_measured_rest(p, x - 1, e as int);
            } else {
                assert(0 < x * u) by (nonlinear_arith) requires 0 < x, 0 < u;
                lemma_measured_rest(p, x as int, e as int);
            }
        }
        if minus {
            (false, nearest(x - 1, e as i64, true, Ghost(p), Ghost(1)))
        } else {
            (false, nearest(x, e as i64, true, Ghost(p), Ghost(1)))
        }
    }
}

impl Real {
    pub fn plus(self, other: Real) -> (r: Real)
        ensures
            r == fadd(self, other),
    {
        if self.is_nan() || other.is_nan() {
            return Real { bits: QUIET };
        }
        if !self.is_finite() {
            if !other.is_finite() && self.is_negative() != other.is_negative() {
                return Real { bits: QUIET };
            }
            return self;
        }
        if !other.is_finite() {
            return other;
        }
        let a: u64 = self.pattern();
        let b: u64 = other.pattern();
        let (m1, t1) = parts(a);
        let (m2, t2) = parts(b);
        proof {
            lemma_pow2_pos(t1 as nat);
            lemma_pow2_pos(t2 as nat);
            if a > 0 {
                lemma_mag_monotone(0, a as int);
            }
            if b > 0 {
                lemma_mag_monotone(0, b as int);
            }
        }
        let minus: bool = self.is_negative() != other.is_negative();
        if (!minus && a == 0 && b == 0) || (minus && a == b) {
            return with_sign(self.is_negative() && other.is_negative(), 0);
        }
        proof {
            if minus && a < b {
                lemma_mag_monotone(a as int, b as int);
            } else if minus && b < a {
                lemma_mag_monotone(b as int, a as int);
            }
        }
        if t1 >= t2 {
            let ghost p = if minus {
                mag(a as int) - mag(b as int)
            } else {
                mag(a as int) + mag(b as int)
            };
            let (below, n) = combine(m1, t1, m2, t2, minus, Ghost(p));
            with_sign(self.is_negative() != below, n)
        } else {
            let ghost p = if minus {
                mag(b as int) - mag(a as int)
            } else {
                mag(b as int) + mag(a as int)
            };
            let (below, n) = combine(m2, t2, m1, t1, minus, Ghost(p));
            with_sign(other.is_negative() != below, n)
        }
    }

    pub fn minus(self, other: Real) -> (r: Real)
        ensures
            r == fsub(self, other),
    {
        self.plus(other.negated())
    }

    pub fn times(self, other: Real) -> (r: Real)
        ensures
            r == fmul(self, other),
    {
        let neg: bool = self.is_negative() != other.is_negative();
        let a: u64 = self.pattern();
        let b: u64 = other.pattern();
        if a > INF || b > INF || (a == INF && b == 0) || (a == 0 && b == INF) {
            return Real { bits: QUIET };
        }
        if a == INF || b == INF {
            return with_sign(neg, INF);
        }
        let (m1, t1) = parts(a);
        let (m2, t2) = parts(b);
        proof {
            lemma_powers();
            assert(m1 * m2 <= (2 * BINADE) * (2 * BINADE)) by (nonlinear_arith)
                requires m1 <= 2 * BINADE, m2 <= 2 * BINADE;
            assert(0 <= m1 * m2) by (nonlinear_arith);
        }
        let m: u128 = (m1 as u128) * (m2 as u128);
        let e: i64 = t1 as i64 + t2 as i64 - 1074;
        let ghost p = mag(a as int) * mag(b as int);
        let ghost q = pow2(ONE_EXPONENT as nat) as int;
        proof {
            let c = pow2(OFFSET as nat) as int;
            let v1 = pow2(t1 as nat) as int;
            let v2 = pow2(t2 as nat) as int;
            let d = pow2((e + OFFSET) as nat) as int;
            lemma_pow2_pos(ONE_EXPONENT as nat);
            lemma_pow2_pos((e + OFFSET) as nat);
            lemma_pow2_adds(t1 as nat, t2 as nat);
            lemma_pow2_adds((t1 + t2) as nat, OFFSET as nat);
            lemma_pow2_adds(ONE_EXPONENT as nat, (e + OFFSET) as nat);
            assert(q * d == (v1 * v2) * c);
            assert(m * (q * d) == p * c) by (nonlinear_arith)
                requires q * d == (v1 * v2) * c, p == (m1 * v1) * (m2 * v2), m == m1 * m2;
            let unit = q * d;
            assert(0 < unit) by (nonlinear_arith) requires unit == q * d, 0 < q, 0 < d;
            assert(m * unit < (m + 1) * unit) by (nonlinear_arith) requires 0 < unit;
            assert(measured(p, q, m as int, e as int, false));
        }
        with_sign(neg, nearest(m, e, false, Ghost(p), Ghost(q)))
    }

    pub fn over(self, other: Real) -> (r: Real)
        ensures
            r == fdiv(self, other),
    {
        let neg: bool = self.is_negative() != other.is_negative();
        let a: u64 = self.pattern();
        let b: u64 = other.pattern();
        if a > INF || b > INF || (a == INF && b == INF) || (a == 0 && b == 0) {
            return Real { bits: QUIET };
        }
        if a == INF || b == 0 {
            return with_sign(neg, INF);
        }
        if b == INF {
            return with_sign(neg, 0);
        }
        let (m1, t1) = parts(a);
        let (m2, t2) = parts(b);
        let ghost p = mag(a as int) * pow2(ONE_EXPONENT as nat);
        let ghost q = mag(b as int);
        proof {
            lemma_powers();
            lemma_mag_next(0);
            lemma_mag_monotone(0, b as int);
        }
        if m1 == 0 {
            proof {
                lemma_zero(p, q);
            }
            return with_sign(neg, nearest(0, 0, false, Ghost(p), Ghost(q)));
        }
        let len: u32 = bit_len(m1 as u128);
        proof {
            if len > 53 {
                if len > 54 {
                    lemma_pow2_strictly_increases(53, (len - 1) as nat);
                }
            }
        }
        let j: u32 = 53 - len;
        let k: u32 = j + 64;
        proof {
            let w = pow2(k as nat) as int;
            let g = pow2(len as nat) as int;
            let f = pow2((len - 1) as nat) as int;
            lemma_pow2_pos(k as nat);
            lemma_pow2_adds(len as nat, k as nat);
            lemma_pow2_adds((len - 1) as nat, k as nat);
            lemma_pow2_adds(53, 64);
            lemma_pow2_adds(52, 64);
            assert(m1 * w < g * w) by (nonlinear_arith) requires m1 < g, 0 < w;
            assert(f * w <= m1 * w) by (nonlinear_arith) requires f <= m1, 0 < w;
            lemma_shl(m1 as u128, k as u128);
        }
        let x: u128 = (m1 as u128) << (k as u128);
        let y: u128 = m2 as u128;
        let m: u128 = x / y;
        let rest: bool = x % y != 0;
        let e: i64 = t1 as i64 - k as i64 - t2 as i64 + 1074;
        proof {
            lemma_fundamental_div_mod(x as int, y as int);
            lemma_quotient(p, q, m1 as int, t1 as int, m2 as int, t2 as int, k as int, x as int, m as int, (x % y) as int, e as int);
            assert(m <= x) by (nonlinear_arith) requires x == y * m + (x % y), 0 < y, 0 <= x % y;
            assert(0x40_0000_0000_0000 <= m) by (nonlinear_arith)
                requires
                    x == y * m + (x % y), x % y < y, y < 2 * BINADE,
                    BINADE * 0x1_0000_0000_0000_0000 <= x;
        }
        with_sign(neg, nearest(m, e, rest, Ghost(p), Ghost(q)))
    }
}

proof fn lemma_zero(p: int, q: int)
    requires
        p == mag(0) * pow2(ONE_EXPONENT as nat),
        0 < q,
    ensures
        measured(p, q, 0, 0, false),
{
    let c = pow2(OFFSET as nat) as int;
    let o = pow2(ONE_EXPONENT as nat) as int;
    lemma_pow2_pos(OFFSET as nat);
    assert(p == 0) by (nonlinear_arith) requires p == 0 * o;
    assert(p * c == 0) by (nonlinear_arith) requires p == 0;
    let unit = q * c;
    assert(0 * unit == 0) by (nonlinear_arith);
    assert(0 < unit) by (nonlinear_arith) requires unit == q * c, 0 < q, 0 < c;
    assert((0 + 1) * unit == unit) by (nonlinear_arith);
}

proof fn lemma_quotient(
    p: int,
    q: int,
    m1: int,
    t1: int,
    m2: int,
    t2: int,
    k: int,
    x: int,
    m: int,
    low: int,
    e: int,
)
    requires
        0 <= t1,
        0 <= t2 <= 2045,
        0 <= k <= 116,
        p == (m1 * pow2(t1 as nat)) * pow2(ONE_EXPONENT as nat),
        q == m2 * pow2(t2 as nat),
        0 < m2,
        x == m1 * pow2(k as nat),
        x == m2 * m + low,
        0 <= low < m2,
        e == t1 - k - t2 + 1074,
    ensures
        0 < q,
        measured(p, q, m, e, low != 0),
{
    let c = pow2(OFFSET as nat) as int;
    let d = pow2((e + OFFSET) as nat) as int;
    let v1 = pow2(t1 as nat) as int;
    let v2 = pow2(t2 as nat) as int;
    let w = pow2(k as nat) as int;
    let o = pow2(ONE_EXPONENT as nat) as int;
    let g = pow2((t1 - k + 1074 + OFFSET) as nat) as int;
    lemma_pow2_pos((e + OFFSET) as nat);
    lemma_pow2_pos(t2 as nat);
    lemma_pow2_pos((t1 - k + 1074 + OFFSET) as nat);
    lemma_pow2_adds(t2 as nat, (e + OFFSET) as nat);
    lemma_pow2_adds(t1 as nat, ONE_EXPONENT as nat);
    lemma_pow2_adds((t1 + ONE_EXPONENT) as nat, OFFSET as nat);
    lemma_pow2_adds(k as nat, (t1 - k + 1074 + OFFSET) as nat);
    assert(v2 * d == g);
    assert((v1 * o) * c == w * g);
    assert(0 < q) by (nonlinear_arith) requires q == m2 * v2, 0 < m2, 0 < v2;
    assert(q * d == m2 * g) by (nonlinear_arith) requires q == m2 * v2, v2 * d == g;
    assert(p * c == x * g) by (nonlinear_arith)
        requires p == (m1 * v1) * o, (v1 * o) * c == w * g, x == m1 * w;
    let unit = m2 * g;
    assert(m * unit + low * g == x * g) by (nonlinear_arith)
        requires x == m2 * m + low, unit == m2 * g;
    assert(0 <= low * g < unit) by (nonlinear_arith)
        requires 0 <= low < m2, 0 < g, unit == m2 * g;
    assert((low * g == 0) == (low == 0)) by (nonlinear_arith) requires 0 < g;
    assert((m + 1) * unit == m * unit + unit) by (nonlinear_arith);
}

} // verus!
