//! How near a reported number lies to the one that it was rounded from, and that rounding
//! keeps the order.
use vstd::prelude::*;
use crate::fit::report::rounded_at;
use crate::number::{fabs, fle, flt, fneg, lit, mag, Real};
use crate::number::arith::{fdiv, fmul, ONE_EXPONENT};
use crate::number::consts::{ONE, ZERO};
use crate::number::convert::{finteger, one_quanta, whole};
use crate::number::error::{law_integer_near, law_power_of_two, law_product_absolute,
    law_quotient_absolute, size_of};
use crate::number::order::{law_division_monotone, law_integer_monotone, law_nearest_exists,
    law_rounding_exact, law_rounding_monotone, law_rounding_ratio, law_scaling_monotone,
    lemma_one, lemma_ranks_values, lemma_zero_rounds};
use crate::number::rounding::lemma_mag_monotone;
use vstd::arithmetic::div_mod::lemma_fundamental_div_mod;
use vstd::arithmetic::power2::{lemma2_to64, lemma2_to64_rest, lemma_pow2_adds, lemma_pow2_pos,
    lemma_pow2_strictly_increases};

verus! {

/// 2^30
pub const BILLION: u64 = 0x41d0_0000_0000_0000;

/// 2^20
const BINARY_MILLION: u64 = 0x4130_0000_0000_0000;

/// 2^50
const WIDE: u64 = 0x4310_0000_0000_0000;

proof fn lemma_wide()
    ensures
        mag(BILLION as int) == 0x4000_0000 * one_quanta(),
        mag(BINARY_MILLION as int) == 0x10_0000 * one_quanta(),
        mag(WIDE as int) == 0x4_0000_0000_0000 * one_quanta(),
        0x80_0000_0000_0000 <= one_quanta(),
{
    law_power_of_two(BILLION as int, 30);
    law_power_of_two(BINARY_MILLION as int, 20);
    law_power_of_two(WIDE as int, 50);
    lemma2_to64();
    lemma2_to64_rest();
    lemma_pow2_adds(30, ONE_EXPONENT as nat);
    lemma_pow2_adds(20, ONE_EXPONENT as nat);
    lemma_pow2_adds(50, ONE_EXPONENT as nat);
    lemma_pow2_strictly_increases(55, ONE_EXPONENT as nat);
}

/// The parts of a rounding to a decimal stay within 2^50.
proof fn lemma_parts_within(x: Real, s: Real)
    requires
        fle(fabs(x), lit(BILLION)),
        fle(lit(ONE), s),
        fle(s, lit(BINARY_MILLION)),
    ensures
        ({
            let y = fmul(x, s);
            let n = finteger(y);
            let r = fdiv(n, s);
            &&& y.finite() && n.finite() && r.finite()
            &&& mag(y.size()) <= mag(WIDE as int) && mag(n.size()) <= mag(WIDE as int)
        }),
{
    let q = one_quanta();
    let w = mag(WIDE as int);
    let y = fmul(x, s);
    let n = finteger(y);
    lemma_wide();
    lemma_one();
    lemma_pow2_pos(ONE_EXPONENT as nat);
    assert(mag(0) == 0);
    lemma_ranks_values(fabs(x), lit(BILLION));
    lemma_ranks_values(lit(ONE), s);
    lemma_ranks_values(s, lit(BINARY_MILLION));
    if x.size() > 0 {
        lemma_mag_monotone(0, x.size());
    }
    let (a, b) = (mag(x.size()), mag(s.size()));
    assert(0 <= a * b && (a * b) * 1 <= w * q) by (nonlinear_arith)
        requires
            0 <= a <= 0x4000_0000 * q,
            0 <= b <= 0x10_0000 * q,
            w == 0x4_0000_0000_0000 * q,
            0 < q,
    ;
    law_nearest_exists(a * b, q);
    law_rounding_ratio(a * b, q, w, 1);
    law_rounding_exact(WIDE as int);
    assert(y.size() <= WIDE);
    if y.size() < WIDE {
        lemma_mag_monotone(y.size(), WIDE as int);
    }
    let c = mag(y.size());
    if y.size() > 0 {
        lemma_mag_monotone(0, y.size());
    }
    let k = whole(c);
    lemma_fundamental_div_mod(2 * c + q, 2 * q);
    let rest = (2 * c + q) % (2 * q);
    assert(0 <= k && k <= 0x4_0000_0000_0000) by (nonlinear_arith)
        requires
            2 * c + q == 2 * q * k + rest,
            0 <= rest < 2 * q,
            0 <= c <= 0x4_0000_0000_0000 * q,
            0 < q,
    ;
    assert(0 <= k * q && k * q <= w) by (nonlinear_arith)
        requires
            0 <= k <= 0x4_0000_0000_0000,
            w == 0x4_0000_0000_0000 * q,
            0 < q,
    ;
    law_nearest_exists(k * q, 1);
    law_rounding_monotone(k * q, w, 1);
    assert(n.size() <= WIDE);
    if n.size() < WIDE {
        lemma_mag_monotone(n.size(), WIDE as int);
    }
    let d = mag(n.size());
    if n.size() > 0 {
        lemma_mag_monotone(0, n.size());
    }
    assert(0 <= d * q && (d * q) * 1 <= w * b) by (nonlinear_arith)
        requires
            0 <= d <= w,
            q <= b,
            0 < q,
            0 < w,
    ;
    law_nearest_exists(d * q, b);
    law_rounding_ratio(d * q, b, w, 1);
}

/// A number up to 2^30 that is rounded to a multiple of `1 / k` moves by `1 / k` at most.
pub proof fn law_reported_is_near(x: Real, s: Real, k: int)
    requires
        fle(fabs(x), lit(BILLION)),
        1 <= k <= 0x10_0000,
        s.finite(),
        s.value() == k * one_quanta(),
    ensures
        rounded_at(x, s).finite(),
        k * size_of(rounded_at(x, s).value() - x.value()) <= one_quanta(),
{
    let q = one_quanta();
    let u: int = 0x20_0000_0000_0000;
    lemma_wide();
    lemma_one();
    lemma_pow2_pos(ONE_EXPONENT as nat);
    assert(mag(0) == 0);
    assert(q <= k * q && k * q <= 0x10_0000 * q) by (nonlinear_arith)
        requires
            1 <= k <= 0x10_0000,
            0 < q,
    ;
    if s.size() < ONE {
        lemma_mag_monotone(s.size(), ONE as int);
    }
    if s.size() > BINARY_MILLION {
        lemma_mag_monotone(BINARY_MILLION as int, s.size());
    }
    lemma_parts_within(x, s);
    lemma_ranks_values(fabs(x), lit(BILLION));
    let y = fmul(x, s);
    let n = finteger(y);
    let r = fdiv(n, s);
    law_product_absolute(x, s);
    law_integer_near(y);
    law_quotient_absolute(n, s);
    let (a, b, c, d) = (x.value(), y.value(), n.value(), r.value());
    let sv = s.value();
    let m = a * k;
    assert(a * sv == m * q) by (nonlinear_arith)
        requires
            sv == k * q,
            m == a * k,
    ;
    assert(d * sv == (d * k) * q) by (nonlinear_arith)
        requires
            sv == k * q,
    ;
    let e1 = b - m;
    let e3 = d * k - c;
    assert(b * q - m * q == e1 * q && (d * k) * q - c * q == e3 * q) by (nonlinear_arith)
        requires
            e1 == b - m,
            e3 == d * k - c,
    ;
    let (g1, g3) = (size_of(e1), size_of(e3));
    let (p1, p3) = (e1 * q, e3 * q);
    assert(size_of(p1) == g1 * q && size_of(p3) == g3 * q) by {
        assert((-e1) * q == -(e1 * q) && (-e3) * q == -(e3 * q)) by (nonlinear_arith);
        assert(e1 >= 0 ==> e1 * q >= 0) by (nonlinear_arith)
            requires
                0 < q,
        ;
        assert(e1 < 0 ==> e1 * q < 0) by (nonlinear_arith)
            requires
                0 < q,
        ;
        assert(e3 >= 0 ==> e3 * q >= 0) by (nonlinear_arith)
            requires
                0 < q,
        ;
        assert(e3 < 0 ==> e3 * q < 0) by (nonlinear_arith)
            requires
                0 < q,
        ;
    }
    let gm = size_of(m);
    let mq = m * q;
    assert(size_of(mq) == gm * q) by {
        assert((-m) * q == -(m * q)) by (nonlinear_arith);
        assert(m >= 0 ==> m * q >= 0) by (nonlinear_arith)
            requires
                0 < q,
        ;
        assert(m < 0 ==> m * q < 0) by (nonlinear_arith)
            requires
                0 < q,
        ;
    }
    let ga = size_of(a);
    assert(gm <= 0x4_0000_0000_0000 * q) by (nonlinear_arith)
        requires
            m == a * k,
            gm == (if m < 0 { -m } else { m }),
            ga == (if a < 0 { -a } else { a }),
            ga <= 0x4000_0000 * q,
            1 <= k <= 0x10_0000,
            0 < q,
    ;
    assert(g1 * u <= gm + u) by (nonlinear_arith)
        requires
            g1 * q * u <= gm * q + q * u,
            0 < q,
    ;
    let gc = size_of(c);
    assert(g3 * u <= gc + k * u) by (nonlinear_arith)
        requires
            g3 * q * u <= gc * q + (k * q) * u,
            0 < q,
    ;
    let g2 = size_of(c - b);
    let gb = size_of(b);
    assert(2 * g2 * u <= q * u + 2 * gb + q);
    let total = size_of(d * k - m);
    assert(total <= g1 + g2 + g3);
    assert(g1 <= q / 8 + 1) by (nonlinear_arith)
        requires
            g1 * u <= gm + u,
            gm <= 0x4_0000_0000_0000 * q,
            u == 0x20_0000_0000_0000,
            0 < q,
    ;
    assert(g3 <= q / 8 + 1 + k) by (nonlinear_arith)
        requires
            g3 * u <= gc + k * u,
            gc <= 0x4_0000_0000_0000 * q,
            u == 0x20_0000_0000_0000,
            0 < q,
    ;
    assert(g2 <= q / 2 + q / 8 + q / 64 + 3) by (nonlinear_arith)
        requires
            2 * g2 * u <= q * u + 2 * gb + q,
            gb <= 0x4_0000_0000_0000 * q,
            u == 0x20_0000_0000_0000,
            0 < q,
    ;
    assert(total <= q);
    let diff = d - a;
    assert(d * k - m == diff * k) by (nonlinear_arith)
        requires
            m == a * k,
            diff == d - a,
    ;
    let gd = size_of(diff);
    let dk = diff * k;
    assert(size_of(dk) == k * gd) by (nonlinear_arith)
        requires
            dk == diff * k,
            gd == (if diff < 0 { -diff } else { diff }),
            1 <= k,
    {
        assert(size_of(dk) == (if dk < 0 { -dk } else { dk }));
    }
}

/// Rounding to an integer keeps the order on either side of 0.
proof fn lemma_integers_ordered(a: Real, b: Real)
    requires
        fle(a, b),
    ensures
        fle(finteger(a), finteger(b)),
{
    let q = one_quanta();
    lemma_pow2_pos(ONE_EXPONENT as nat);
    let (m, n) = (fneg(a), fneg(b));
    if fle(lit(ZERO), a) {
        law_integer_monotone(a, b);
    } else {
        law_integer_monotone(m, m);
        if fle(b, lit(ZERO)) {
            if !b.zero() {
                law_integer_monotone(n, m);
                lemma_integer_sign(n);
            } else {
                lemma_integer_sign(b);
            }
            lemma_integer_sign(m);
        } else {
            law_integer_monotone(b, b);
            lemma_integer_sign(m);
        }
    }
}

/// Rounding to an integer is the same on both sides of 0.
pub proof fn lemma_integer_sign(a: Real)
    requires
        !a.nan(),
    ensures
        finteger(fneg(a)) == fneg(finteger(a)),
        a.zero() ==> finteger(a).zero(),
        !finteger(a).nan(),
{
    let q = one_quanta();
    lemma_pow2_pos(ONE_EXPONENT as nat);
    if a.finite() {
        assert(mag(0) == 0);
        if a.size() > 0 {
            lemma_mag_monotone(0, a.size());
        }
        let x = mag(a.size());
        let w = whole(x);
        lemma_fundamental_div_mod(2 * x + q, 2 * q);
        let r = (2 * x + q) % (2 * q);
        assert(0 <= w) by (nonlinear_arith)
            requires
                2 * x + q == 2 * q * w + r,
                0 <= x,
                0 < q,
                r < 2 * q,
        ;
        assert(0 <= w * q) by (nonlinear_arith)
            requires
                0 <= w,
                0 < q,
        ;
        law_nearest_exists(w * q, 1);
        if a.zero() {
            assert(w == 0) by (nonlinear_arith)
                requires
                    q == 2 * q * w + r,
                    0 <= r,
                    0 < q,
                    0 <= w,
            ;
            assert(0 * q == 0);
            lemma_zero_rounds(1);
        }
    }
}

/// What is reported keeps the order of what it was rounded from.
pub proof fn law_reports_keep_order(a: Real, b: Real, scale: Real)
    requires
        fle(a, b),
        flt(lit(ZERO), scale),
        scale.finite(),
    ensures
        fle(rounded_at(a, scale), rounded_at(b, scale)),
{
    law_scaling_monotone(a, b, scale);
    lemma_integers_ordered(fmul(a, scale), fmul(b, scale));
    law_division_monotone(finteger(fmul(a, scale)), finteger(fmul(b, scale)), scale);
}

} // verus!
