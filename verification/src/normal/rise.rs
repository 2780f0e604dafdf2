//! How far the error function keeps the order of its arguments.
use vstd::prelude::*;
use crate::host::{answer, is_faithful, Call};
use crate::normal::{erf_half, erf_of, is_tame, law_survival_error, lemma_erf_half_within,
    lemma_minus_square, lemma_series, lemma_series_units, lemma_sign_kept, series_of, survival_of,
    ERF_A1, ERF_A2, ERF_A3, ERF_A4, ERF_A5, ERF_P, FIFTEEN_EIGHTHS, MINUS_SIX, SIX, SQRT_2,
    THREE};
use crate::number::{fabs, fle, flt, fneg, lit, mag, Real, BINADE};
use crate::number::arith::{fadd, fdiv, fmul, fsub, ONE_EXPONENT};
use crate::number::consts::{FOUR, ONE, TWO, ZERO};
use crate::number::convert::one_quanta;
use crate::number::error::{law_power_of_two, law_product_absolute, law_sum_error, size_of};
use crate::number::order::{law_commutes, law_division_monotone, law_nearest_exists, law_negation,
    law_product_exact, law_product_monotone, law_products_ordered, law_quotient_monotone,
    law_reach, law_reciprocal, law_reciprocal_falls, law_rounding_exact, law_rounding_ratio,
    law_signs, law_sum_monotone, law_unit_factors, lemma_double, lemma_one, lemma_ranks_values};
use crate::number::rounding::lemma_mag_monotone;
use vstd::arithmetic::power2::{lemma2_to64, lemma2_to64_rest, lemma_pow2_adds, lemma_pow2_pos,
    pow2};

verus! {

/// 2^-50, in quanta.
pub open spec fn grain() -> int {
    pow2(0x400) as int
}

pub proof fn lemma_grain()
    ensures
        one_quanta() == 0x4_0000_0000_0000 * grain(),
        2 <= grain(),
{
    lemma2_to64();
    lemma2_to64_rest();
    lemma_pow2_adds(50, 0x400);
    lemma_pow2_pos(0x3ff);
    lemma_pow2_adds(1, 0x3ff);
}

// ---- the exact series ----

/// The series times `t` with exact coefficients, in the unit `q`.
spec fn curve(a1: int, a2: int, a3: int, a4: int, a5: int, q: int, t: int) -> int {
    let q2 = q * q;
    let q3 = q2 * q;
    let q4 = q3 * q;
    ((((a5 * t - a4 * q) * t + a3 * q2) * t - a2 * q3) * t + a1 * q4) * t
}

/// The same by the powers of `t`.
proof fn lemma_curve_by_powers(a1: int, a2: int, a3: int, a4: int, a5: int, q: int, t: int)
    ensures
        ({
            let (q2, q3, q4) = (q * q, q * q * q, q * q * q * q);
            let (t2, t3, t4, t5) = (t * t, t * t * t, t * t * t * t, t * t * t * t * t);
            curve(a1, a2, a3, a4, a5, q, t) == a5 * t5 - a4 * (q * t4) + a3 * (q2 * t3) - a2 * (q3
                * t2) + a1 * (q4 * t)
        }),
{
    let (q2, q3, q4) = (q * q, q * q * q, q * q * q * q);
    let (t2, t3, t4, t5) = (t * t, t * t * t, t * t * t * t, t * t * t * t * t);
    lemma_terms_times(a5 * t, a4 * q, 0, 0, 0, t);
    lemma_terms_times(a5 * t2, a4 * (q * t), a3 * q2, 0, 0, t);
    lemma_terms_times(a5 * t3, a4 * (q * t2), a3 * (q2 * t), a2 * q3, 0, t);
    lemma_terms_times(a5 * t4, a4 * (q * t3), a3 * (q2 * t2), a2 * (q3 * t), a1 * q4, t);
    assert(a5 * t * t == a5 * t2 && a5 * t2 * t == a5 * t3 && a5 * t3 * t == a5 * t4 && a5 * t4 * t
        == a5 * t5) by (nonlinear_arith)
        requires
            t2 == t * t,
            t3 == t2 * t,
            t4 == t3 * t,
            t5 == t4 * t,
    ;
    assert(a4 * q * t == a4 * (q * t) && a4 * (q * t) * t == a4 * (q * t2) && a4 * (q * t2) * t
        == a4 * (q * t3) && a4 * (q * t3) * t == a4 * (q * t4)) by (nonlinear_arith)
        requires
            t2 == t * t,
            t3 == t2 * t,
            t4 == t3 * t,
    ;
    assert(a3 * q2 * t == a3 * (q2 * t) && a3 * (q2 * t) * t == a3 * (q2 * t2) && a3 * (q2 * t2)
        * t == a3 * (q2 * t3)) by (nonlinear_arith)
        requires
            t2 == t * t,
            t3 == t2 * t,
    ;
    assert(a2 * q3 * t == a2 * (q3 * t) && a2 * (q3 * t) * t == a2 * (q3 * t2) && a1 * q4 * t == a1
        * (q4 * t)) by (nonlinear_arith)
        requires
            t2 == t * t,
    ;
}

proof fn lemma_terms_times(a: int, b: int, c: int, d: int, e: int, t: int)
    ensures
        (a - b + c - d + e) * t == a * t - b * t + c * t - d * t + e * t,
{
    assert((a - b + c - d + e) * t == a * t - b * t + c * t - d * t + e * t) by (nonlinear_arith);
}

/// By which factor a difference of powers exceeds the difference.
proof fn lemma_powers(s: int, t: int)
    ensures
        t * t - s * s == (t - s) * (t + s),
        t * t * t - s * s * s == (t - s) * (t * t + t * s + s * s),
        t * t * t * t - s * s * s * s == (t - s) * (t * t * t + t * t * s + t * s * s + s * s * s),
        t * t * t * t * t - s * s * s * s * s == (t - s) * (t * t * t * t + t * t * t * s + t * t
            * s * s + t * s * s * s + s * s * s * s),
{
    assert(t * t - s * s == (t - s) * (t + s)) by (nonlinear_arith);
    assert(t * t * t - s * s * s == (t - s) * (t * t + t * s + s * s)) by (nonlinear_arith);
    assert(t * t * t * t - s * s * s * s == (t - s) * (t * t * t + t * t * s + t * s * s + s * s
        * s)) by (nonlinear_arith);
    assert(t * t * t * t * t - s * s * s * s * s == (t - s) * (t * t * t * t + t * t * t * s + t
        * t * s * s + t * s * s * s + s * s * s * s)) by (nonlinear_arith);
}

/// Between the sums of mixed powers that arise there.
proof fn lemma_mixed_powers(s: int, t: int, q: int)
    requires
        0 <= s <= t,
    ensures
        ({
            let h1 = t + s;
            let h2 = t * t + t * s + s * s;
            let h3 = t * t * t + t * t * s + t * s * s + s * s * s;
            let h4 = t * t * t * t + t * t * t * s + t * t * s * s + t * s * s * s + s * s * s * s;
            &&& 6 * (q * h3) <= 4 * (q * q * h2) + 3 * h4
            &&& 6 * (q * h1) <= 3 * (q * q) + 4 * h2
            &&& 0 <= h2 && 0 <= h4
        }),
{
    let ts = t * s;
    let (t2, t3, t4) = (t * t, t * t * t, t * t * t * t);
    let (s2, s3, s4) = (s * s, s * s * s, s * s * s * s);
    let t2s = t * t * s;
    let ts2 = t * s * s;
    let t3s = t * t * t * s;
    let ts3 = t * s * s * s;
    let t2s2 = t * t * s * s;
    let q2 = q * q;
    assert(t * t * t * t == (t * t) * (t * t) && s * s * s * s == (s * s) * (s * s) && t * t * s
        == t * (t * s) && t * t * t * s == (t * t) * (t * s) && t * s * s == s * (t * s) && t * s
        * s * s == (s * s) * (t * s) && t * t * s * s == (t * t) * (s * s)) by (nonlinear_arith);
    assert(0 <= ts && 0 <= t2 && 0 <= s2) by (nonlinear_arith)
        requires
            0 <= s <= t,
            ts == t * s,
            t2 == t * t,
            s2 == s * s,
    ;
    assert(2 * (q * t) <= q2 + t2) by (nonlinear_arith)
        requires
            q2 == q * q,
            t2 == t * t,
    {
        assert(0 <= (q - t) * (q - t)) by (nonlinear_arith);
    }
    assert(2 * (q * s) <= q2 + s2) by (nonlinear_arith)
        requires
            q2 == q * q,
            s2 == s * s,
    {
        assert(0 <= (q - s) * (q - s)) by (nonlinear_arith);
    }
    assert(2 * (q * t3) <= q2 * t2 + t4) by (nonlinear_arith)
        requires
            2 * (q * t) <= q2 + t2,
            0 <= t2,
            t3 == t2 * t,
            t4 == t2 * t2,
    {
        assert((2 * (q * t)) * t2 <= (q2 + t2) * t2) by (nonlinear_arith)
            requires
                2 * (q * t) <= q2 + t2,
                0 <= t2,
        ;
    }
    assert(2 * (q * s3) <= q2 * s2 + s4) by (nonlinear_arith)
        requires
            2 * (q * s) <= q2 + s2,
            0 <= s2,
            s3 == s2 * s,
            s4 == s2 * s2,
    {
        assert((2 * (q * s)) * s2 <= (q2 + s2) * s2) by (nonlinear_arith)
            requires
                2 * (q * s) <= q2 + s2,
                0 <= s2,
        ;
    }
    assert(2 * (q * t2s) <= q2 * ts + t3s) by (nonlinear_arith)
        requires
            2 * (q * t) <= q2 + t2,
            0 <= ts,
            t2s == t * ts,
            t3s == t2 * ts,
    {
        assert((2 * (q * t)) * ts <= (q2 + t2) * ts) by (nonlinear_arith)
            requires
                2 * (q * t) <= q2 + t2,
                0 <= ts,
        ;
    }
    assert(2 * (q * ts2) <= q2 * ts + ts3) by (nonlinear_arith)
        requires
            2 * (q * s) <= q2 + s2,
            0 <= ts,
            ts2 == s * ts,
            ts3 == s2 * ts,
    {
        assert((2 * (q * s)) * ts <= (q2 + s2) * ts) by (nonlinear_arith)
            requires
                2 * (q * s) <= q2 + s2,
                0 <= ts,
        ;
    }
    assert(0 <= t2s2) by (nonlinear_arith)
        requires
            t2s2 == t2 * s2,
            0 <= t2,
            0 <= s2,
    ;
    assert(0 <= t3s && 0 <= ts3 && 0 <= t4 && 0 <= s4) by (nonlinear_arith)
        requires
            t3s == t2 * ts,
            ts3 == s2 * ts,
            t4 == t2 * t2,
            s4 == s2 * s2,
            0 <= ts,
            0 <= t2,
            0 <= s2,
    ;
    // the product of the two is at most a third of their form
    assert(2 * ts <= t2 + s2) by (nonlinear_arith)
        requires
            ts == t * s,
            t2 == t * t,
            s2 == s * s,
    {
        assert(0 <= (t - s) * (t - s)) by (nonlinear_arith);
    }
    let h2 = t2 + ts + s2;
    assert(3 * (q2 * ts) <= q2 * h2) by (nonlinear_arith)
        requires
            3 * ts <= h2,
            q2 == q * q,
    ;
    let h3 = t3 + t2s + ts2 + s3;
    assert(q * h3 == q * t3 + q * t2s + q * ts2 + q * s3) by (nonlinear_arith)
        requires
            h3 == t3 + t2s + ts2 + s3,
    ;
    assert(q2 * h2 == q2 * t2 + q2 * ts + q2 * s2) by (nonlinear_arith)
        requires
            h2 == t2 + ts + s2,
    ;
    let h1 = t + s;
    assert(2 * (q * h1) <= q2 + h1 * h1) by (nonlinear_arith)
        requires
            q2 == q * q,
    {
        assert(0 <= (q - h1) * (q - h1)) by (nonlinear_arith);
    }
    assert(h1 * h1 == t2 + 2 * ts + s2) by (nonlinear_arith)
        requires
            h1 == t + s,
            ts == t * s,
            t2 == t * t,
            s2 == s * s,
    ;
}

/// The curve rises from 0 to 1, where its coefficients are in proportion.
proof fn lemma_curve_rises(
    a1: int,
    a2: int,
    a3: int,
    a4: int,
    a5: int,
    q: int,
    s: int,
    t: int,
)
    requires
        0 <= s <= t,
        0 <= a2 && 0 <= a4,
        a2 <= 2 * a1,
        2 * a2 + 2 * a4 <= 3 * a3,
        a4 <= 2 * a5,
    ensures
        curve(a1, a2, a3, a4, a5, q, s) <= curve(a1, a2, a3, a4, a5, q, t),
{
    lemma_curve_by_powers(a1, a2, a3, a4, a5, q, s);
    lemma_curve_by_powers(a1, a2, a3, a4, a5, q, t);
    lemma_powers(s, t);
    lemma_mixed_powers(s, t, q);
    let d = t - s;
    let (q2, q3, q4) = (q * q, q * q * q, q * q * q * q);
    let h1 = t + s;
    let h2 = t * t + t * s + s * s;
    let h3 = t * t * t + t * t * s + t * s * s + s * s * s;
    let h4 = t * t * t * t + t * t * t * s + t * t * s * s + t * s * s * s + s * s * s * s;
    let k = a5 * h4 - a4 * (q * h3) + a3 * (q2 * h2) - a2 * (q3 * h1) + a1 * q4;
    assert(0 <= q2 && q4 == q2 * q2) by (nonlinear_arith)
        requires
            q2 == q * q,
            q4 == q * q * q * q,
    ;
    assert(6 * (q3 * h1) <= 3 * q4 + 4 * (q2 * h2)) by (nonlinear_arith)
        requires
            6 * (q * h1) <= 3 * q2 + 4 * h2,
            0 <= q2,
            q3 == q2 * q,
            q4 == q2 * q2,
    {
        assert((6 * (q * h1)) * q2 <= (3 * q2 + 4 * h2) * q2) by (nonlinear_arith)
            requires
                6 * (q * h1) <= 3 * q2 + 4 * h2,
                0 <= q2,
        ;
    }
    let v = q2 * h2;
    assert(0 <= v && 0 <= q4) by (nonlinear_arith)
        requires
            v == q2 * h2,
            q4 == q2 * q2,
            0 <= q2,
            0 <= h2,
    ;
    let x = q * h3;
    let y = q3 * h1;
    assert(a4 * (6 * x) <= a4 * (4 * v + 3 * h4) && a2 * (6 * y) <= a2 * (3 * q4 + 4 * v))
        by (nonlinear_arith)
        requires
            6 * x <= 4 * v + 3 * h4,
            6 * y <= 3 * q4 + 4 * v,
            0 <= a2,
            0 <= a4,
    ;
    assert(0 <= h4 * (6 * a5 - 3 * a4) && 0 <= v * (6 * a3 - 4 * a4 - 4 * a2) && 0 <= q4 * (6 * a1
        - 3 * a2)) by (nonlinear_arith)
        requires
            0 <= h4,
            0 <= v,
            0 <= q4,
            a2 <= 2 * a1,
            2 * a2 + 2 * a4 <= 3 * a3,
            a4 <= 2 * a5,
    ;
    assert(a4 * (6 * x) == 6 * (a4 * x) && a4 * (4 * v + 3 * h4) == 4 * (a4 * v) + 3 * (a4 * h4))
        by (nonlinear_arith);
    assert(a2 * (6 * y) == 6 * (a2 * y) && a2 * (3 * q4 + 4 * v) == 3 * (a2 * q4) + 4 * (a2 * v))
        by (nonlinear_arith);
    assert(h4 * (6 * a5 - 3 * a4) == 6 * (a5 * h4) - 3 * (a4 * h4)) by (nonlinear_arith);
    assert(v * (6 * a3 - 4 * a4 - 4 * a2) == 6 * (a3 * v) - 4 * (a4 * v) - 4 * (a2 * v))
        by (nonlinear_arith);
    assert(q4 * (6 * a1 - 3 * a2) == 6 * (a1 * q4) - 3 * (a2 * q4)) by (nonlinear_arith);
    assert(0 <= 6 * k);
    assert(0 <= d * k) by (nonlinear_arith)
        requires
            0 <= d,
            0 <= k,
    ;
    let (s2, s3, s4, s5) = (s * s, s * s * s, s * s * s * s, s * s * s * s * s);
    let (t2, t3, t4, t5) = (t * t, t * t * t, t * t * t * t, t * t * t * t * t);
    assert(a5 * t5 - a5 * s5 == d * (a5 * h4)) by (nonlinear_arith)
        requires
            t5 - s5 == d * h4,
    ;
    assert(a4 * (q * t4) - a4 * (q * s4) == d * (a4 * (q * h3))) by (nonlinear_arith)
        requires
            t4 - s4 == d * h3,
    ;
    assert(a3 * (q2 * t3) - a3 * (q2 * s3) == d * (a3 * (q2 * h2))) by (nonlinear_arith)
        requires
            t3 - s3 == d * h2,
    ;
    assert(a2 * (q3 * t2) - a2 * (q3 * s2) == d * (a2 * (q3 * h1))) by (nonlinear_arith)
        requires
            t2 - s2 == d * h1,
    ;
    assert(a1 * (q4 * t) - a1 * (q4 * s) == d * (a1 * q4)) by (nonlinear_arith)
        requires
            t - s == d,
    ;
    let (k5, k4, k3) = (a5 * h4, a4 * (q * h3), a3 * (q2 * h2));
    let (k2, k1) = (a2 * (q3 * h1), a1 * q4);
    assert(d * k == d * k5 - d * k4 + d * k3 - d * k2 + d * k1) by (nonlinear_arith)
        requires
            k == k5 - k4 + k3 - k2 + k1,
    ;
}

// ---- the roundings on the way ----

proof fn lemma_scaled_size(d: int, k: int, b: int)
    requires
        size_of(d) <= b,
        0 <= k,
    ensures
        size_of(d * k) <= b * k,
{
    let p = d * k;
    assert(-(b * k) <= p <= b * k) by (nonlinear_arith)
        requires
            p == d * k,
            -b <= d <= b,
            0 <= k,
    ;
}

/// One step of the series: what it adds to the error.
proof fn lemma_horner(
    c: int,
    t: int,
    p: int,
    r: int,
    a: int,
    w: int,
    x: int,
    k: int,
    q: int,
    e: int,
)
    requires
        0 <= t <= q,
        0 <= w,
        0 <= k,
        0 <= e,
        size_of(c * w - x) <= k * (e * w),
        size_of(p * q - c * t) <= e * q,
        size_of(r - (p + a)) <= e,
    ensures
        size_of(r * (w * q) - (x * t + a * (w * q))) <= (k + 2) * (e * (w * q)),
{
    let v = w * q;
    let d1 = r - (p + a);
    let d2 = p * q - c * t;
    let d3 = c * w - x;
    assert(0 <= v) by (nonlinear_arith)
        requires
            v == w * q,
            0 <= w,
            0 <= q,
    ;
    lemma_scaled_size(d1, v, e);
    lemma_scaled_size(d2, w, e * q);
    lemma_scaled_size(d3, t, k * (e * w));
    assert(d1 * v == r * v - p * v - a * v) by (nonlinear_arith)
        requires
            d1 == r - (p + a),
    ;
    assert(d2 * w == p * v - c * t * w) by (nonlinear_arith)
        requires
            d2 == p * q - c * t,
            v == w * q,
    ;
    assert(d3 * t == c * t * w - x * t) by (nonlinear_arith)
        requires
            d3 == c * w - x,
    ;
    assert(r * v - (x * t + a * v) == d1 * v + d2 * w + d3 * t);
    assert(e * q * w == e * v) by (nonlinear_arith)
        requires
            v == w * q,
    ;
    let ew = e * w;
    assert(k * ew * t <= k * (e * v)) by {
        assert(0 <= ew) by (nonlinear_arith)
            requires
                ew == e * w,
                0 <= e,
                0 <= w,
        ;
        assert(ew * t <= ew * q) by (nonlinear_arith)
            requires
                0 <= ew,
                t <= q,
        ;
        assert(ew * q == e * v) by (nonlinear_arith)
            requires
                ew == e * w,
                v == w * q,
        ;
        let m = ew * t;
        let n = e * v;
        assert(k * m <= k * n) by (nonlinear_arith)
            requires
                m <= n,
                0 <= k,
        ;
        assert(k * ew * t == k * m) by (nonlinear_arith)
            requires
                m == ew * t,
        ;
    }
    let n = e * v;
    assert((k + 2) * n == k * n + 2 * n) by (nonlinear_arith);
}

proof fn lemma_tame(x: Real)
    requires
        is_tame(x),
    ensures
        x.finite(),
        size_of(x.value()) <= 2 * one_quanta(),
{
    lemma_one();
    lemma_series_units(pow2(0x3fa) as int);
    assert(mag(0) == 0);
    lemma_ranks_values(fneg(lit(TWO)), x);
    lemma_ranks_values(x, lit(TWO));
}

pub proof fn lemma_sum_off(a: Real, b: Real)
    requires
        a.finite(),
        b.finite(),
        fadd(a, b).finite(),
        size_of(a.value() + b.value()) <= 8 * one_quanta(),
    ensures
        size_of(fadd(a, b).value() - (a.value() + b.value())) <= grain(),
{
    lemma_grain();
    law_sum_error(a, b);
    let d = size_of(fadd(a, b).value() - (a.value() + b.value()));
    let g = grain();
    assert(d <= g) by (nonlinear_arith)
        requires
            d * 0x20_0000_0000_0000 <= 0x20_0000_0000_0000 * g,
    ;
}

proof fn lemma_product_off(a: Real, b: Real)
    requires
        a.finite(),
        b.finite(),
        fmul(a, b).finite(),
        size_of(a.value()) <= 2 * one_quanta(),
        0 <= b.value() <= one_quanta(),
    ensures
        size_of(fmul(a, b).value() * one_quanta() - a.value() * b.value()) <= grain()
            * one_quanta(),
{
    lemma_grain();
    law_product_absolute(a, b);
    let q = one_quanta();
    let g = grain();
    let x = a.value();
    let y = b.value();
    let p = x * y;
    lemma_pow2_pos(ONE_EXPONENT as nat);
    lemma_scaled_size(x, y, 2 * q);
    assert(2 * q * y <= 2 * q * q) by (nonlinear_arith)
        requires
            y <= q,
            0 < q,
    ;
    assert(2 * q * q == 0x8_0000_0000_0000 * (g * q)) by (nonlinear_arith)
        requires
            q == 0x4_0000_0000_0000 * g,
    ;
    assert(2 * q <= g * q) by (nonlinear_arith)
        requires
            2 <= g,
            0 < q,
    ;
    let d = size_of(fmul(a, b).value() * q - p);
    let h = g * q;
    assert(d <= h) by (nonlinear_arith)
        requires
            d * 0x20_0000_0000_0000 <= 0x8_0000_0000_0000 * h + q * 0x20_0000_0000_0000,
            2 * q <= h,
            0 < q,
    ;
}

/// The series times `t` lies within nine grains of the exact one.
proof fn lemma_series_near(t: Real)
    requires
        fle(lit(ZERO), t),
        fle(t, lit(ONE)),
    ensures
        0 <= t.value() <= one_quanta(),
        fle(lit(ZERO), fmul(series_of(t), t)),
        fle(fmul(series_of(t), t), lit(FIFTEEN_EIGHTHS)),
        ({
            let q = one_quanta();
            let q5 = q * q * q * q * q;
            size_of(
                fmul(series_of(t), t).value() * q5 - curve(
                    mag(ERF_A1 as int),
                    mag(ERF_A2 as int),
                    mag(ERF_A3 as int),
                    mag(ERF_A4 as int),
                    mag(ERF_A5 as int),
                    q,
                    t.value(),
                ),
            ) <= 9 * (grain() * q5)
        }),
{
    let q = one_quanta();
    let g = grain();
    let u = pow2(0x3fa) as int;
    lemma_grain();
    lemma_one();
    lemma_series_units(u);
    lemma_series(t);
    assert(mag(0) == 0);
    lemma_ranks_values(lit(ZERO), t);
    lemma_ranks_values(t, lit(ONE));
    let p5 = fmul(lit(ERF_A5), t);
    let c4 = fsub(p5, lit(ERF_A4));
    let p4 = fmul(c4, t);
    let c3 = fadd(p4, lit(ERF_A3));
    let p3 = fmul(c3, t);
    let c2 = fsub(p3, lit(ERF_A2));
    let p2 = fmul(c2, t);
    let c1 = fadd(p2, lit(ERF_A1));
    let n = fmul(c1, t);
    assert(series_of(t) == c1);
    law_products_ordered(c1, lit(FIFTEEN_EIGHTHS), t, lit(ONE));
    law_unit_factors(lit(FIFTEEN_EIGHTHS));
    lemma_tame(p5);
    lemma_tame(c4);
    lemma_tame(p4);
    lemma_tame(c3);
    lemma_tame(p3);
    lemma_tame(c2);
    lemma_tame(p2);
    lemma_tame(c1);
    lemma_tame(n);
    lemma_product_off(lit(ERF_A5), t);
    lemma_product_off(c4, t);
    lemma_product_off(c3, t);
    lemma_product_off(c2, t);
    lemma_product_off(c1, t);
    lemma_sum_off(p5, fneg(lit(ERF_A4)));
    lemma_sum_off(p4, lit(ERF_A3));
    lemma_sum_off(p3, fneg(lit(ERF_A2)));
    lemma_sum_off(p2, lit(ERF_A1));
    let x = t.value();
    let a1 = mag(ERF_A1 as int);
    let a2 = mag(ERF_A2 as int);
    let a3 = mag(ERF_A3 as int);
    let a4 = mag(ERF_A4 as int);
    let a5 = mag(ERF_A5 as int);
    let (q2, q3, q4) = (q * q, q * q * q, q * q * q * q);
    let q5 = q * q * q * q * q;
    assert(0 <= q2 && 0 <= q3 && 0 <= q4) by (nonlinear_arith)
        requires
            0 <= q,
            q2 == q * q,
            q3 == q2 * q,
            q4 == q3 * q,
    ;
    let x1 = a5 * x - a4 * q;
    let x2 = x1 * x + a3 * q2;
    let x3 = x2 * x - a2 * q3;
    let x4 = x3 * x + a1 * q4;
    assert((-a4) * q == -(a4 * q) && (-a2) * q3 == -(a2 * q3)) by (nonlinear_arith);
    lemma_horner(a5, x, p5.value(), c4.value(), -a4, 1, a5, 0, q, g);
    lemma_horner(c4.value(), x, p4.value(), c3.value(), a3, q, x1, 2, q, g);
    lemma_horner(c3.value(), x, p3.value(), c2.value(), -a2, q2, x2, 4, q, g);
    lemma_horner(c2.value(), x, p2.value(), c1.value(), a1, q3, x3, 6, q, g);
    // the last product
    let d = n.value() * q - c1.value() * x;
    let e = c1.value() * q4 - x4;
    lemma_scaled_size(d, q4, g * q);
    lemma_scaled_size(e, x, 8 * (g * q4));
    let m = n.value();
    let c = c1.value();
    assert(d * q4 == m * q5 - c * x * q4) by (nonlinear_arith)
        requires
            d == m * q - c * x,
            q5 == q4 * q,
    ;
    assert(e * x == c * x * q4 - x4 * x) by (nonlinear_arith)
        requires
            e == c * q4 - x4,
    ;
    assert(g * q * q4 == g * q5) by (nonlinear_arith)
        requires
            q5 == q4 * q,
    ;
    assert(8 * (g * q4) * x <= 8 * (g * q5)) by (nonlinear_arith)
        requires
            q5 == q4 * q,
            x <= q,
            0 <= g,
            0 <= q4,
    {
        let w = g * q4;
        assert(0 <= w) by (nonlinear_arith)
            requires
                w == g * q4,
                0 <= g,
                0 <= q4,
        ;
        assert(w * x <= w * q) by (nonlinear_arith)
            requires
                0 <= w,
                x <= q,
        ;
        assert(w * q == g * q5) by (nonlinear_arith)
            requires
                w == g * q4,
                q5 == q4 * q,
        ;
    }
    assert(curve(a1, a2, a3, a4, a5, q, x) == x4 * x);
}

// ---- the order ----

/// The factor of the argument in the error function, which falls.
proof fn lemma_factor_falls(a: Real, b: Real)
    requires
        fle(lit(ZERO), a),
        fle(a, b),
    ensures
        ({
            let s = fdiv(lit(ONE), fadd(lit(ONE), fmul(lit(ERF_P), a)));
            let t = fdiv(lit(ONE), fadd(lit(ONE), fmul(lit(ERF_P), b)));
            &&& fle(lit(ZERO), t) && fle(t, s) && fle(s, lit(ONE))
        }),
{
    let c = fadd(lit(ONE), fmul(lit(ERF_P), a));
    let d = fadd(lit(ONE), fmul(lit(ERF_P), b));
    law_product_monotone(a, b, lit(ERF_P));
    law_product_monotone(b, b, lit(ERF_P));
    law_commutes(a, lit(ERF_P));
    law_commutes(b, lit(ERF_P));
    law_reach(lit(ONE), fmul(lit(ERF_P), a));
    law_reach(lit(ONE), fmul(lit(ERF_P), b));
    law_sum_monotone(fmul(lit(ERF_P), a), fmul(lit(ERF_P), b), lit(ONE));
    law_commutes(lit(ONE), fmul(lit(ERF_P), a));
    law_commutes(lit(ONE), fmul(lit(ERF_P), b));
    law_reciprocal(c);
    law_reciprocal(d);
    law_reciprocal_falls(c, d);
}

/// Minus the square falls.
proof fn lemma_square_falls(a: Real, b: Real)
    requires
        fle(lit(ZERO), a),
        fle(a, b),
    ensures
        fle(fmul(fneg(b), b), fmul(fneg(a), a)),
        fle(fmul(fneg(a), a), lit(ZERO)),
{
    lemma_minus_square(a);
    law_signs(a, a);
    law_signs(b, b);
    if b.finite() {
        law_products_ordered(a, b, a, b);
        law_negation(fmul(a, a), fmul(b, b));
    }
}

/// The factor of the argument in the error function.
spec fn factor_of(a: Real) -> Real {
    fdiv(lit(ONE), fadd(lit(ONE), fmul(lit(ERF_P), a)))
}

/// What the error function at `a` is made of, but for two roundings.
proof fn lemma_half_near<M: Fn(Call) -> Real>(math: M, a: Real)
    requires
        is_faithful(math),
        fle(lit(ZERO), a),
    ensures
        ({
            let t = factor_of(a);
            let n = fmul(series_of(t), t);
            let e = answer(math, Call::Exp(fmul(fneg(a), a)));
            let v = fmul(n, e);
            let y = erf_half(math, a);
            let q = one_quanta();
            &&& fle(lit(ZERO), t) && fle(t, lit(ONE))
            &&& n.finite() && 0 <= n.value()
            &&& e.finite() && 0 <= e.value() <= q
            &&& y.finite()
            &&& size_of(v.value() * q - n.value() * e.value()) <= grain() * q
            &&& size_of(y.value() - (q - v.value())) <= grain()
        }),
{
    let t = factor_of(a);
    let n = fmul(series_of(t), t);
    let x = fmul(fneg(a), a);
    let e = answer(math, Call::Exp(x));
    let v = fmul(n, e);
    let y = erf_half(math, a);
    let q = one_quanta();
    lemma_one();
    lemma_grain();
    lemma_series_units(pow2(0x3fa) as int);
    assert(mag(0) == 0);
    lemma_factor_falls(a, a);
    lemma_series_near(t);
    lemma_minus_square(a);
    lemma_tame(n);
    lemma_ranks_values(lit(ZERO), n);
    lemma_ranks_values(lit(ZERO), e);
    lemma_ranks_values(e, lit(ONE));
    law_products_ordered(n, lit(FIFTEEN_EIGHTHS), e, lit(ONE));
    law_unit_factors(lit(FIFTEEN_EIGHTHS));
    lemma_tame(v);
    lemma_product_off(n, e);
    lemma_erf_half_within(math, a);
    lemma_tame(y);
    lemma_sum_off(lit(ONE), fneg(v));
}

/// The coefficients are in proportion, and add up to 1 at most.
proof fn lemma_coefficients()
    ensures
        0 <= mag(ERF_A2 as int) && 0 <= mag(ERF_A4 as int),
        mag(ERF_A2 as int) <= 2 * mag(ERF_A1 as int),
        2 * mag(ERF_A2 as int) + 2 * mag(ERF_A4 as int) <= 3 * mag(ERF_A3 as int),
        mag(ERF_A4 as int) <= 2 * mag(ERF_A5 as int),
        mag(ERF_A5 as int) - mag(ERF_A4 as int) + mag(ERF_A3 as int) - mag(ERF_A2 as int) + mag(
            ERF_A1 as int,
        ) <= one_quanta(),
{
    lemma_one();
    lemma_series_units(pow2(0x3fa) as int);
}

/// The error function, where it is not negative, keeps the order within 22 grains.
proof fn lemma_half_nearly_rises<M: Fn(Call) -> Real>(math: M, a: Real, b: Real)
    requires
        is_faithful(math),
        fle(lit(ZERO), a),
        fle(a, b),
    ensures
        erf_half(math, a).value() <= erf_half(math, b).value() + 22 * grain(),
{
    let q = one_quanta();
    let g = grain();
    lemma_grain();
    lemma_half_near(math, a);
    lemma_half_near(math, b);
    lemma_factor_falls(a, b);
    lemma_square_falls(a, b);
    lemma_coefficients();
    let s = factor_of(a);
    let t = factor_of(b);
    lemma_series_near(s);
    lemma_series_near(t);
    lemma_ranks_values(t, s);
    lemma_curve_rises(
        mag(ERF_A1 as int),
        mag(ERF_A2 as int),
        mag(ERF_A3 as int),
        mag(ERF_A4 as int),
        mag(ERF_A5 as int),
        q,
        t.value(),
        s.value(),
    );
    let m = fmul(series_of(s), s);
    let n = fmul(series_of(t), t);
    let q5 = q * q * q * q * q;
    lemma_fifth_power(q);
    let (x, y) = (m.value(), n.value());
    assert(y - 18 * g <= x) by (nonlinear_arith)
        requires
            y * q5 - x * q5 <= 18 * (g * q5),
            0 < q5,
    ;
    let d = answer(math, Call::Exp(fmul(fneg(a), a)));
    let e = answer(math, Call::Exp(fmul(fneg(b), b)));
    lemma_ranks_values(e, d);
    let (k, l) = (d.value(), e.value());
    assert(y * l - 18 * (g * q) <= x * k) by (nonlinear_arith)
        requires
            y - 18 * g <= x,
            0 <= x,
            0 <= l <= k,
            l <= q,
            0 <= g,
    {
        assert((y - 18 * g) * l <= x * l) by (nonlinear_arith)
            requires
                y - 18 * g <= x,
                0 <= l,
        ;
        assert(x * l <= x * k) by (nonlinear_arith)
            requires
                0 <= x,
                l <= k,
        ;
        assert(g * l <= g * q) by (nonlinear_arith)
            requires
                0 <= g,
                l <= q,
        ;
        assert((y - 18 * g) * l == y * l - 18 * (g * l)) by (nonlinear_arith);
    }
    let v = fmul(m, d).value();
    let w = fmul(n, e).value();
    assert(w - 20 * g <= v) by (nonlinear_arith)
        requires
            w * q - v * q <= 20 * (g * q),
            0 < q,
    ;
}

proof fn lemma_fifth_power(q: int)
    requires
        0 < q,
    ensures
        0 < q * q * q * q * q,
{
    assert(0 < q * q) by (nonlinear_arith)
        requires
            0 < q,
    ;
    let r = q * q;
    assert(0 < r * q) by (nonlinear_arith)
        requires
            0 < r,
            0 < q,
    ;
    let s = r * q;
    assert(0 < s * q) by (nonlinear_arith)
        requires
            0 < s,
            0 < q,
    ;
    let t = s * q;
    assert(0 < t * q) by (nonlinear_arith)
        requires
            0 < t,
            0 < q,
    ;
}

/// The error function, where it is not negative, lies at most 11 grains below 0.
proof fn lemma_half_not_low<M: Fn(Call) -> Real>(math: M, a: Real)
    requires
        is_faithful(math),
        fle(lit(ZERO), a),
    ensures
        -11 * grain() <= erf_half(math, a).value(),
{
    let q = one_quanta();
    let g = grain();
    lemma_grain();
    lemma_half_near(math, a);
    lemma_coefficients();
    let t = factor_of(a);
    lemma_series_near(t);
    let a1 = mag(ERF_A1 as int);
    let a2 = mag(ERF_A2 as int);
    let a3 = mag(ERF_A3 as int);
    let a4 = mag(ERF_A4 as int);
    let a5 = mag(ERF_A5 as int);
    lemma_curve_rises(a1, a2, a3, a4, a5, q, t.value(), q);
    lemma_curve_by_powers(a1, a2, a3, a4, a5, q, q);
    let q5 = q * q * q * q * q;
    lemma_fifth_power(q);
    let (q2, q3, q4) = (q * q, q * q * q, q * q * q * q);
    assert(q * q4 == q5 && q2 * q3 == q5 && q3 * q2 == q5 && q4 * q == q5) by (nonlinear_arith)
        requires
            q2 == q * q,
            q3 == q2 * q,
            q4 == q3 * q,
            q5 == q4 * q,
    ;
    assert(a5 * q5 - a4 * q5 + a3 * q5 - a2 * q5 + a1 * q5 == (a5 - a4 + a3 - a2 + a1) * q5)
        by (nonlinear_arith);
    let k = a5 - a4 + a3 - a2 + a1;
    assert(k * q5 <= q * q5) by (nonlinear_arith)
        requires
            k <= q,
            0 < q5,
    ;
    let n = fmul(series_of(t), t).value();
    assert(n <= q + 9 * g) by (nonlinear_arith)
        requires
            n * q5 <= q * q5 + 9 * (g * q5),
            0 < q5,
    ;
    let e = answer(math, Call::Exp(fmul(fneg(a), a))).value();
    assert(n * e <= q * q + 9 * (g * q)) by (nonlinear_arith)
        requires
            n <= q + 9 * g,
            0 <= n,
            0 <= e <= q,
    ;
    let v = fmul(fmul(series_of(t), t), answer(math, Call::Exp(fmul(fneg(a), a)))).value();
    assert(v <= q + 10 * g) by (nonlinear_arith)
        requires
            v * q <= q * q + 10 * (g * q),
            0 < q,
    ;
}

/// The error function keeps the order of its arguments within 22 parts in 2^50.
pub proof fn law_erf_nearly_rises<M: Fn(Call) -> Real>(math: M, x: Real, y: Real)
    requires
        is_faithful(math),
        fle(x, y),
    ensures
        erf_of(math, x).value() <= erf_of(math, y).value() + 22 * grain(),
{
    let a = fabs(x);
    let b = fabs(y);
    lemma_grain();
    lemma_erf_half_within(math, a);
    lemma_erf_half_within(math, b);
    lemma_sign_kept(erf_half(math, a));
    lemma_sign_kept(erf_half(math, b));
    if flt(x, lit(ZERO)) {
        if flt(y, lit(ZERO)) {
            law_negation(x, y);
            lemma_half_nearly_rises(math, b, a);
        } else {
            lemma_half_not_low(math, a);
            lemma_half_not_low(math, b);
        }
    } else {
        lemma_half_nearly_rises(math, a, b);
    }
}

/// The probability to survive falls, within 2^-46: to have lasted longer is hardly ever more
/// likely.
pub proof fn law_survival_nearly_falls<M: Fn(Call) -> Real>(math: M, y: Real, z: Real)
    requires
        is_faithful(math),
        fle(y, z),
    ensures
        survival_of(math, z).value() <= survival_of(math, y).value() + 16 * grain(),
{
    let q = one_quanta();
    lemma_grain();
    law_division_monotone(y, z, lit(SQRT_2));
    let d = erf_of(math, fdiv(y, lit(SQRT_2))).value();
    let e = erf_of(math, fdiv(z, lit(SQRT_2))).value();
    law_erf_nearly_rises(math, fdiv(y, lit(SQRT_2)), fdiv(z, lit(SQRT_2)));
    law_survival_error(math, y, d, 0);
    law_survival_error(math, z, e, 0);
    let k = size_of(2 * survival_of(math, y).value() - (q - d));
    let l = size_of(2 * survival_of(math, z).value() - (q - e));
    assert(k <= grain() && l <= grain()) by (nonlinear_arith)
        requires
            k * (2 * BINADE) <= 2 * q,
            l * (2 * BINADE) <= 2 * q,
            q == 0x4_0000_0000_0000 * grain(),
            2 <= grain(),
    ;
}

/// On either side of 0 the error function has the sign of its argument, within 11 parts in
/// 2^50.
pub proof fn law_erf_sides<M: Fn(Call) -> Real>(math: M, x: Real)
    requires
        is_faithful(math),
        !x.nan(),
    ensures
        flt(x, lit(ZERO)) ==> erf_of(math, x).value() <= 11 * grain(),
        fle(lit(ZERO), x) ==> -11 * grain() <= erf_of(math, x).value(),
{
    let a = fabs(x);
    lemma_erf_half_within(math, a);
    lemma_sign_kept(erf_half(math, a));
    lemma_half_not_low(math, a);
}

/// A number more than the least divided by the root of 2 is not lost.
proof fn lemma_share_of_root(z: Real)
    requires
        flt(z, lit(ZERO)),
        z.finite() ==> z.size() > 1,
    ensures
        flt(fdiv(z, lit(SQRT_2)), lit(ZERO)),
{
    if z.finite() {
        let q = one_quanta();
        let x = mag(z.size());
        let m = mag(SQRT_2 as int);
        lemma_one();
        lemma_pow2_pos(ONE_EXPONENT as nat);
        assert(mag(0) == 0 && mag(1) == 1 && mag(2) == 2);
        if z.size() > 2 {
            lemma_mag_monotone(2, z.size());
        }
        lemma_double(ONE as int);
        lemma_mag_monotone(SQRT_2 as int, ONE + BINADE);
        lemma_mag_monotone(0, SQRT_2 as int);
        assert(0 <= x * q && 1 * m <= x * q) by (nonlinear_arith)
            requires
                2 <= x,
                m <= 2 * q,
                0 < q,
        ;
        law_nearest_exists(x * q, m);
        law_rounding_ratio(1, 1, x * q, m);
        law_rounding_exact(1);
    }
}

/// Below its mean a normal variable is exceeded with a probability of 1/2 or more, above it
/// of 1/2 or less, within 7 parts in 2^50.
pub proof fn law_survival_sides<M: Fn(Call) -> Real>(math: M, z: Real)
    requires
        is_faithful(math),
        !z.nan(),
    ensures
        flt(z, lit(ZERO)) && (z.finite() ==> z.size() > 1) ==> one_quanta() - 14 * grain() <= 2
            * survival_of(math, z).value(),
        fle(lit(ZERO), z) ==> 2 * survival_of(math, z).value() <= one_quanta() + 14 * grain(),
{
    let q = one_quanta();
    let x = fdiv(z, lit(SQRT_2));
    let e = erf_of(math, x).value();
    lemma_grain();
    law_division_monotone(z, z, lit(SQRT_2));
    law_erf_sides(math, x);
    law_survival_error(math, z, e, 0);
    let k = size_of(2 * survival_of(math, z).value() - (q - e));
    assert(k <= grain()) by (nonlinear_arith)
        requires
            k * (2 * BINADE) <= 2 * q,
            q == 0x4_0000_0000_0000 * grain(),
            2 <= grain(),
    ;
    if fle(lit(ZERO), z) {
        law_quotient_monotone(z, z, lit(SQRT_2));
    } else if z.finite() ==> z.size() > 1 {
        lemma_share_of_root(z);
    }
}

/// -16
pub const MINUS_SIXTEEN: u64 = 0xc030_0000_0000_0000;

/// 2^-23
pub const RARE_POWER: u64 = 0x3e80_0000_0000_0000;

/// Whether the exponential at -16 is no more than 2^-23.
pub open spec fn exponential_falls<M: Fn(Call) -> Real>(math: M) -> bool {
    fle(answer(math, Call::Exp(lit(MINUS_SIXTEEN))), lit(RARE_POWER))
}

/// From 4 on the error function lacks at most 2^-21 to 1.
proof fn lemma_half_far<M: Fn(Call) -> Real>(math: M, a: Real)
    requires
        is_faithful(math),
        exponential_falls(math),
        fle(lit(FOUR), a),
    ensures
        one_quanta() - 0x2000_0000 * grain() <= erf_half(math, a).value(),
{
    let q = one_quanta();
    let g = grain();
    lemma_grain();
    lemma_half_near(math, a);
    lemma_square_falls(lit(FOUR), a);
    let t = factor_of(a);
    lemma_series_near(t);
    let n = fmul(series_of(t), t);
    lemma_series_units(pow2(0x3fa) as int);
    lemma_tame(n);
    let four = lit(FOUR);
    law_power_of_two(FOUR as int, 2);
    law_power_of_two(0x4030_0000_0000_0000, 4);
    law_power_of_two(RARE_POWER as int, -23);
    lemma2_to64();
    lemma_pow2_adds(2, ONE_EXPONENT as nat);
    lemma_pow2_adds(4, ONE_EXPONENT as nat);
    lemma_pow2_adds(27, 0x400);
    lemma_pow2_pos(ONE_EXPONENT as nat);
    assert((4 * q) * (4 * q) == (16 * q) * q) by (nonlinear_arith);
    law_product_exact(fneg(four), four, lit(MINUS_SIXTEEN));
    let e = answer(math, Call::Exp(fmul(fneg(a), a)));
    lemma_ranks_values(e, lit(RARE_POWER));
    let (x, y) = (n.value(), e.value());
    let v = fmul(n, e).value();
    assert(lit(RARE_POWER).value() == 0x800_0000 * g);
    assert(x * y <= 2 * q * (0x800_0000 * g)) by (nonlinear_arith)
        requires
            0 <= x <= 2 * q,
            0 <= y <= 0x800_0000 * g,
    ;
    assert(v <= 0x1000_0001 * g) by (nonlinear_arith)
        requires
            v * q <= x * y + g * q,
            x * y <= 2 * q * (0x800_0000 * g),
            0 < q,
    ;
}

/// From 6 below its mean on a normal variable is exceeded but for 2^-20.
pub proof fn law_survival_is_sure<M: Fn(Call) -> Real>(math: M, z: Real)
    requires
        is_faithful(math),
        exponential_falls(math),
        fle(z, lit(MINUS_SIX)),
    ensures
        one_quanta() - 0x2000_0000 * grain() <= survival_of(math, z).value(),
{
    let q = one_quanta();
    let x = fdiv(z, lit(SQRT_2));
    let a = fneg(z);
    lemma_grain();
    law_division_monotone(z, z, lit(SQRT_2));
    law_negation(z, lit(MINUS_SIX));
    assert(fneg(lit(MINUS_SIX)) == lit(SIX));
    law_signs(a, lit(SQRT_2));
    law_quotient_monotone(lit(SIX), a, lit(SQRT_2));
    lemma_root_of_two();
    let b = fdiv(a, lit(SQRT_2));
    law_negation(b, lit(ZERO));
    assert(x == fneg(b));
    assert(fabs(x) == b);
    lemma_half_far(math, b);
    lemma_erf_half_within(math, b);
    lemma_sign_kept(erf_half(math, b));
    let e = erf_of(math, x).value();
    law_survival_error(math, z, e, 0);
    let k = size_of(2 * survival_of(math, z).value() - (q - e));
    assert(k <= grain()) by (nonlinear_arith)
        requires
            k * (2 * BINADE) <= 2 * q,
            q == 0x4_0000_0000_0000 * grain(),
            2 <= grain(),
    ;
}

/// 6 over the root of 2 is more than 4.
proof fn lemma_root_of_two()
    ensures
        fle(lit(FOUR), fdiv(lit(SIX), lit(SQRT_2))),
{
    let q = one_quanta();
    let m = mag(SQRT_2 as int);
    let x = mag(SIX as int);
    lemma_one();
    lemma_pow2_pos(ONE_EXPONENT as nat);
    assert(mag(0) == 0);
    lemma_double(ONE as int);
    lemma_double(TWO as int);
    lemma_double(0x3ff8_0000_0000_0000);
    lemma_double(THREE as int);
    assert(ONE + BINADE == TWO && TWO + BINADE == FOUR && THREE + BINADE == SIX);
    lemma_series_units(pow2(0x3fa) as int);
    lemma_mag_monotone(SQRT_2 as int, 0x3ff8_0000_0000_0000);
    lemma_mag_monotone(0, SQRT_2 as int);
    assert(0 <= x * q && (4 * q) * m <= x * q) by (nonlinear_arith)
        requires
            4 * m <= x,
            0 < q,
            0 < m,
    ;
    assert((x * q) * 1 == x * q);
    law_nearest_exists(x * q, m);
    law_rounding_ratio(4 * q, 1, x * q, m);
    law_rounding_exact(FOUR as int);
}

} // verus!
