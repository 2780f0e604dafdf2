//! Sizes, squares and quotients: what grows with what.
use vstd::prelude::*;
use crate::number::{fabs, fle, flt, fneg, lit, mag, Real, BINADE, INF};
use crate::number::arith::{fadd, fdiv, fmul, fsub, ONE_EXPONENT};
use crate::number::consts::{ONE, TWO, ZERO};
use crate::number::convert::{fint, one_quanta};
use crate::number::error::{law_difference_error, law_power_of_two, law_quotient_absolute,
    law_rounded_near, size_of};
use crate::number::order::{law_commutes, law_difference_antitone, law_nearest_exists,
    law_product_exact, law_products_ordered, law_quotient_monotone, law_rounding_exact,
    law_rounding_monotone, law_rounding_ratio, law_rounding_scaled, law_signs, lemma_double,
    lemma_one, lemma_zero_rounds};
use crate::number::rounding::{lemma_mag_monotone, lemma_mag_next, rounded, rounds};
use vstd::arithmetic::power2::{lemma2_to64, lemma2_to64_rest, lemma_pow2_adds, lemma_pow2_pos,
    pow2};

verus! {

/// The magnitudes in a quotient of finite numbers.
proof fn lemma_quotient_exists(a: Real, d: Real)
    requires
        a.finite(),
        flt(lit(ZERO), d),
        d.finite(),
    ensures
        0 <= mag(a.size()) * pow2(ONE_EXPONENT as nat),
        0 < mag(d.size()),
        rounds(
            mag(a.size()) * pow2(ONE_EXPONENT as nat),
            mag(d.size()),
            rounded(mag(a.size()) * pow2(ONE_EXPONENT as nat), mag(d.size())),
        ),
{
    let q = pow2(ONE_EXPONENT as nat) as int;
    let x = mag(a.size());
    lemma_pow2_pos(ONE_EXPONENT as nat);
    assert(mag(0) == 0);
    lemma_mag_monotone(0, d.size());
    if a.size() > 0 {
        lemma_mag_monotone(0, a.size());
    }
    assert(0 <= x * q) by (nonlinear_arith)
        requires
            0 <= x,
            0 < q,
    ;
    law_nearest_exists(x * q, mag(d.size()));
}

/// The size of a quotient by a positive number.
pub proof fn lemma_size_of_share(g: Real, s: Real)
    requires
        !g.nan(),
        flt(lit(ZERO), s),
        s.finite(),
    ensures
        fabs(fdiv(g, s)) == fdiv(fabs(g), s),
        !fdiv(g, s).nan(),
        fle(lit(ZERO), fdiv(fabs(g), s)),
        g.zero() ==> fdiv(g, s).zero(),
{
    let a = fabs(g);
    law_quotient_monotone(a, a, s);
    law_signs(a, s);
    if g.finite() {
        lemma_quotient_exists(a, s);
        if g.zero() {
            assert(mag(0) == 0);
            assert(0 * pow2(ONE_EXPONENT as nat) == 0);
            lemma_zero_rounds(mag(s.size()));
        }
    }
    assert(!fdiv(a, s).neg());
    assert(g == a || g == fneg(a));
}

/// The greater the divisor, the less the quotient.
pub proof fn law_divisor_lowers(a: Real, c: Real, d: Real)
    requires
        fle(lit(ZERO), a),
        flt(lit(ZERO), c),
        fle(c, d),
        d.finite(),
    ensures
        fle(lit(ZERO), fdiv(a, d)),
        fle(fdiv(a, d), fdiv(a, c)),
{
    law_quotient_monotone(a, a, c);
    law_quotient_monotone(a, a, d);
    if a.finite() {
        lemma_quotient_exists(a, c);
        lemma_quotient_exists(a, d);
        let v = mag(a.size()) * pow2(ONE_EXPONENT as nat);
        let (y, z) = (mag(c.size()), mag(d.size()));
        if c.size() < d.size() {
            lemma_mag_monotone(c.size(), d.size());
        }
        assert(v * y <= v * z) by (nonlinear_arith)
            requires
                0 <= v,
                y <= z,
        ;
        law_rounding_ratio(v, z, v, y);
        if a.neg() {
            assert(a.zero() && mag(0) == 0);
            assert(0 * pow2(ONE_EXPONENT as nat) == 0);
            lemma_zero_rounds(y);
            lemma_zero_rounds(z);
        }
    }
}

/// The square of a number is that of its size.
pub proof fn lemma_square_of_size(x: Real)
    requires
        !x.nan(),
    ensures
        fmul(x, x) == fmul(fabs(x), fabs(x)),
        fle(lit(ZERO), fmul(x, x)),
        !fmul(x, x).neg(),
        x.zero() ==> fmul(x, x).zero(),
{
    let a = fabs(x);
    let m = mag(a.size());
    let q = pow2(ONE_EXPONENT as nat) as int;
    lemma_pow2_pos(ONE_EXPONENT as nat);
    assert(mag(0) == 0);
    if x.finite() {
        if a.size() > 0 {
            lemma_mag_monotone(0, a.size());
        }
        assert(0 <= m * m) by (nonlinear_arith);
        law_nearest_exists(m * m, q);
        if x.zero() {
            assert(0 * 0 == 0);
            lemma_zero_rounds(q);
        }
    }
}

/// The square grows with the size.
pub proof fn law_squares_ordered(x: Real, y: Real)
    requires
        fle(fabs(x), fabs(y)),
    ensures
        fle(lit(ZERO), fmul(x, x)),
        fle(fmul(x, x), fmul(y, y)),
        x.zero() ==> fmul(x, x).zero(),
{
    lemma_square_of_size(x);
    lemma_square_of_size(y);
    if y.finite() {
        law_products_ordered(fabs(x), fabs(y), fabs(x), fabs(y));
    }
}

/// The difference of a number and a lesser one is positive.
pub proof fn law_difference_is_felt(a: Real, b: Real)
    requires
        flt(a, b),
        a.finite() || b.finite(),
    ensures
        flt(lit(ZERO), fsub(b, a)),
{
    if a.finite() && b.finite() {
        assert(mag(0) == 0);
        let (x, y) = (a.size(), b.size());
        if !a.neg() && !b.neg() {
            lemma_mag_monotone(x, y);
        } else if a.neg() && b.neg() {
            lemma_mag_monotone(y, x);
        } else {
            if x > 0 {
                lemma_mag_monotone(0, x);
            }
            if y > 0 {
                lemma_mag_monotone(0, y);
            }
        }
        let v = b.value() - a.value();
        assert(0 < v);
        assert(mag(1) == 1);
        law_nearest_exists(v, 1);
        law_rounding_monotone(1, v, 1);
        law_rounding_exact(1);
    }
}

/// A number less one that is no lesser is not negative.
pub proof fn law_difference_not_negative(a: Real, b: Real)
    requires
        fle(a, b),
        b.finite(),
    ensures
        fle(lit(ZERO), fsub(b, a)),
{
    law_difference_antitone(a, b, b);
    law_nothing_left(b);
}

/// A finite number less itself is nothing.
pub proof fn law_nothing_left(b: Real)
    requires
        b.finite(),
    ensures
        fsub(b, b).zero(),
{
    assert(mag(0) == 0);
}

/// A product of magnitudes up to a bound is a number up to it.
pub proof fn law_product_bounded(a: Real, b: Real, w: int)
    requires
        a.finite(),
        b.finite(),
        0 <= w < INF,
        mag(a.size()) * mag(b.size()) <= mag(w) * pow2(ONE_EXPONENT as nat),
    ensures
        fmul(a, b).finite(),
        fmul(a, b).size() <= w,
        size_of(fmul(a, b).value()) <= mag(w),
{
    let q = pow2(ONE_EXPONENT as nat) as int;
    lemma_pow2_pos(ONE_EXPONENT as nat);
    assert(mag(0) == 0);
    if a.size() > 0 {
        lemma_mag_monotone(0, a.size());
    }
    if b.size() > 0 {
        lemma_mag_monotone(0, b.size());
    }
    if w > 0 {
        lemma_mag_monotone(0, w);
    }
    let (x, y) = (mag(a.size()), mag(b.size()));
    let p = x * y;
    assert(0 <= p) by (nonlinear_arith)
        requires
            0 <= x,
            0 <= y,
            p == x * y,
    ;
    law_nearest_exists(p, q);
    law_rounding_ratio(p, q, mag(w), 1);
    law_rounding_exact(w);
    let n = fmul(a, b).size();
    if n < w {
        lemma_mag_monotone(n, w);
    }
    if n > 0 {
        lemma_mag_monotone(0, n);
    }
}

/// A sum up to a bound is a number up to it.
pub proof fn law_sum_bounded(a: Real, b: Real, w: int)
    requires
        a.finite(),
        b.finite(),
        0 <= w < INF,
        size_of(a.value() + b.value()) <= mag(w),
    ensures
        fadd(a, b).finite(),
        fadd(a, b).size() <= w,
        size_of(fadd(a, b).value()) <= mag(w),
{
    let v = size_of(a.value() + b.value());
    assert(mag(0) == 0);
    law_nearest_exists(v, 1);
    law_rounding_monotone(v, mag(w), 1);
    law_rounding_exact(w);
    lemma_zero_rounds(1);
    let n = fadd(a, b).size();
    if n < w {
        lemma_mag_monotone(n, w);
    }
    if n > 0 {
        lemma_mag_monotone(0, n);
    }
}

/// A whole number as a number is right within one part in 2^53.
pub proof fn law_count_near(n: int)
    requires
        0 <= n <= 0x10_0000_0000_0000,
    ensures
        fint(n).finite(),
        !fint(n).neg(),
        size_of(fint(n).value() - n * one_quanta()) * (2 * BINADE) <= n * one_quanta(),
{
    let q = one_quanta();
    let v = n * q;
    let w = 0x4330_0000_0000_0000;
    lemma_pow2_pos(ONE_EXPONENT as nat);
    law_power_of_two(w, 52);
    lemma2_to64();
    lemma2_to64_rest();
    lemma_pow2_adds(52, ONE_EXPONENT as nat);
    assert(0 <= v && v <= mag(w)) by (nonlinear_arith)
        requires
            v == n * q,
            0 <= n <= 0x10_0000_0000_0000,
            mag(w) == 0x10_0000_0000_0000 * q,
            0 < q,
    ;
    law_nearest_exists(v, 1);
    law_rounding_monotone(v, mag(w), 1);
    law_rounding_exact(w);
    law_rounded_near(v);
}

/// A quotient of two counts, each of which and itself is rounded, times the second is the first.
pub proof fn lemma_quotient_of_counts(c: int, a: int, d: int, k: int, n: int, q: int)
    requires
        0 <= k <= 0x20_0000,
        0 < n <= 0x10_0000,
        0x100_0000_0000_0000 <= q,
        0 <= c,
        0 <= a,
        0x40_0000 * size_of(a - k * q) <= q,
        size_of(d - n * q) * 0x20_0000_0000_0000 <= n * q,
        size_of(c * d - a * q) * 0x20_0000_0000_0000 <= a * q + d * 0x20_0000_0000_0000,
    ensures
        0x10_0000 * size_of(c * n - k * q) <= q,
{
    let u: int = 0x20_0000_0000_0000;
    let (x, t, nq, kq) = (c * n, d - n * q, n * q, k * q);
    let g = size_of(x - a);
    assert(c * d == x * q + c * t && size_of(c * t) * u <= x * q) by (nonlinear_arith)
        requires
            x == c * n,
            t == d - n * q,
            size_of(t) * u <= n * q,
            0 <= c,
    ;
    assert(0 <= nq && size_of(t) <= nq && 0 <= kq <= 0x20_0000 * q && nq <= 0x10_0000 * q && 0
        <= x) by (nonlinear_arith)
        requires
            x == c * n,
            0 <= c,
            nq == n * q,
            kq == k * q,
            0 <= k <= 0x20_0000,
            0 < n <= 0x10_0000,
            0 < q,
            size_of(t) * u <= nq,
            u == 0x20_0000_0000_0000,
    ;
    let (aq, xq) = (a * q, x * q);
    assert(size_of(xq - aq) * u <= aq + (2 * nq) * u + xq) by (nonlinear_arith)
        requires
            size_of(xq + c * t - aq) * u <= aq + d * u,
            size_of(c * t) * u <= xq,
            d <= 2 * nq,
            0 < u,
    ;
    assert(g * u <= a + 2 * n * u + x) by (nonlinear_arith)
        requires
            size_of(xq - aq) * u <= aq + (2 * nq) * u + xq,
            g == size_of(x - a),
            aq == a * q,
            xq == x * q,
            nq == n * q,
            0 < q,
    ;
    assert(0x1000_0000 * g <= q) by (nonlinear_arith)
        requires
            g * u <= a + 2 * n * u + x,
            x <= a + g,
            a <= 0x40_0000 * q,
            n <= 0x10_0000,
            u == 0x20_0000_0000_0000,
            0x100_0000_0000_0000 <= q,
            0 <= g,
    ;
}

/// A number by 1 is itself.
pub proof fn lemma_over_one(x: Real)
    requires
        x.finite(),
        !x.neg(),
    ensures
        fdiv(x, lit(ONE)) == x,
{
    lemma_one();
    let q = one_quanta();
    lemma_pow2_pos(ONE_EXPONENT as nat);
    let m = mag(x.size());
    assert(mag(0) == 0);
    if x.size() > 0 {
        lemma_mag_monotone(0, x.size());
    }
    law_rounding_scaled(m, 1, q);
    law_rounding_exact(x.size());
    assert(1 * q == q);
}

/// Nothing times a number is nothing.
pub proof fn lemma_nothing_times(z: Real, x: Real)
    requires
        z.zero(),
        x.finite(),
    ensures
        fmul(z, x).zero(),
        fmul(x, z).zero(),
{
    let q = pow2(ONE_EXPONENT as nat) as int;
    lemma_pow2_pos(ONE_EXPONENT as nat);
    assert(mag(0) == 0);
    law_rounding_scaled(0, 1, q);
    law_rounding_exact(0);
    law_commutes(z, x);
    assert(0 * q == 0);
    assert(mag(z.size()) * mag(x.size()) == 0) by (nonlinear_arith)
        requires
            mag(z.size()) == 0,
    ;
}

/// A difference by twice a step, times that, is the difference again, but for two roundings
/// and a quantum.
pub proof fn law_central_difference(a: Real, b: Real, h: Real)
    requires
        a.finite(),
        b.finite(),
        fsub(a, b).finite(),
        flt(lit(ZERO), h),
        BINADE <= h.size() < INF - BINADE,
        fdiv(fsub(a, b), fmul(lit(TWO), h)).finite(),
    ensures
        size_of(
            fdiv(fsub(a, b), fmul(lit(TWO), h)).value() * (2 * h.value()) - (a.value() - b.value())
                * pow2(ONE_EXPONENT as nat),
        ) * (2 * BINADE) <= (size_of(fsub(a, b).value()) + size_of(a.value() - b.value())) * pow2(
            ONE_EXPONENT as nat,
        ) + (2 * h.value()) * (2 * BINADE),
{
    let q = pow2(ONE_EXPONENT as nat) as int;
    let u: int = 2 * BINADE as int;
    lemma_one();
    lemma_pow2_pos(ONE_EXPONENT as nat);
    lemma_double(ONE as int);
    lemma_double(h.size());
    assert(mag(0) == 0);
    lemma_mag_monotone(0, h.size());
    let w = Real { bits: (h.bits + BINADE) as u64 };
    let m = mag(h.size());
    assert((2 * q) * m == (2 * m) * q) by (nonlinear_arith);
    law_product_exact(lit(TWO), h, w);
    let d = fsub(a, b);
    law_difference_error(a, b);
    law_quotient_absolute(d, w);
    let (x, y, z) = (fdiv(d, w).value() * w.value(), d.value(), a.value() - b.value());
    let f = y - z;
    let (e, g) = (x - y * q, f * q);
    assert(x - z * q == e + g) by (nonlinear_arith)
        requires
            e == x - y * q,
            g == f * q,
            f == y - z,
    ;
    assert(size_of(g) == size_of(f) * q) by (nonlinear_arith)
        requires
            g == f * q,
            0 < q,
    ;
    assert(size_of(g) * u <= size_of(z) * q) by (nonlinear_arith)
        requires
            size_of(g) == size_of(f) * q,
            size_of(f) * u <= size_of(z),
            0 < q,
    ;
    assert(size_of(e + g) * u <= size_of(e) * u + size_of(g) * u) by (nonlinear_arith)
        requires
            0 < u,
    ;
    assert((size_of(y) + size_of(z)) * q == size_of(y) * q + size_of(z) * q) by (nonlinear_arith);
}

/// A quotient that can be held is exact.
pub proof fn law_quotient_exact(a: Real, b: Real, c: Real)
    requires
        a.finite(),
        flt(lit(ZERO), b),
        b.finite(),
        c.finite(),
        mag(a.size()) * pow2(ONE_EXPONENT as nat) == mag(c.size()) * mag(b.size()),
        c.neg() == a.neg(),
    ensures
        fdiv(a, b) == c,
{
    lemma_pow2_pos(ONE_EXPONENT as nat);
    assert(mag(0) == 0);
    lemma_mag_monotone(0, b.size());
    lemma_mag_next(c.size());
    let y = mag(b.size());
    law_rounding_scaled(mag(c.size()), 1, y);
    law_rounding_exact(c.size());
    assert(1 * y == y);
}

} // verus!
