//! Where the moves of a search lead.
use vstd::prelude::*;
use crate::number::{fle, fneg, lit, mag, Real, BINADE};
use crate::number::arith::{fdiv, fmul, fsub, ONE_EXPONENT};
use crate::number::consts::{FOUR, HALF, ONE, TWO, ZERO};
use crate::number::convert::{fint, one_quanta};
use crate::number::error::{law_difference_error, law_power_of_two, law_product_absolute,
    law_quotient_absolute, law_sum_error, size_of};
use crate::number::order::{law_commutes, law_nearest_exists, law_product_exact,
    law_rounding_exact, law_rounding_monotone, law_unit_factors, lemma_double, lemma_one,
    lemma_ranks_values};
use crate::number::rounding::{lemma_mag, lemma_mag_monotone, rounded};
use crate::number::shape::{law_count_near, law_divisor_lowers, law_product_bounded,
    law_sum_bounded, lemma_over_one, lemma_quotient_of_counts};
use crate::simplex::{doubled_less, gamma, halfway, mirror, rho, sigma, THREE_QUARTERS};
use vstd::arithmetic::power2::{lemma2_to64, lemma2_to64_rest, lemma_pow2_adds, lemma_pow2_pos,
    lemma_pow2_strictly_increases, pow2};

verus! {

/// The reflection of a corner lies as far behind the centre as the corner lies before it, but
/// for two roundings.
pub proof fn law_reflection_is_as_far(c: Real, h: Real)
    requires
        c.finite(),
        h.finite(),
        fsub(c, h).finite(),
        mirror(c, h).finite(),
    ensures
        size_of(mirror(c, h).value() - (2 * c.value() - h.value())) * (2 * BINADE) <= size_of(
            c.value() + fsub(c, h).value(),
        ) + size_of(c.value() - h.value()),
{
    let d = fsub(c, h);
    law_unit_factors(d);
    law_commutes(d, lit(ONE));
    law_difference_error(c, h);
    law_sum_error(c, d);
    let (a, b) = (mirror(c, h).value() - (c.value() + d.value()), d.value() - (c.value() - h.value()));
    lemma_two_errors(a, b, mirror(c, h).value() - (2 * c.value() - h.value()));
}

/// Two errors together.
proof fn lemma_two_errors(a: int, b: int, c: int)
    requires
        c == a + b,
    ensures
        size_of(c) * (2 * BINADE) <= size_of(a) * (2 * BINADE) + size_of(b) * (2 * BINADE),
{
    let u = 2 * BINADE;
    assert(size_of(c) * u <= size_of(a) * u + size_of(b) * u) by (nonlinear_arith)
        requires
            c == a + b,
            0 <= u,
    ;
}

/// The classic search reflects a corner, and from there goes on, as far behind the centre as
/// the corner lies before it, but for two roundings and a quantum.
pub proof fn law_doubled_is_as_far(c: Seq<Real>, h: Seq<Real>, j: int)
    requires
        0 <= j < c.len(),
        c[j].finite(),
        h[j].finite(),
        fmul(lit(TWO), c[j]).finite(),
        doubled_less(c, h)[j].finite(),
    ensures
        size_of(doubled_less(c, h)[j].value() - (2 * c[j].value() - h[j].value())) * (2 * BINADE)
            <= size_of(fmul(lit(TWO), c[j]).value() - h[j].value()) + 2 * size_of(c[j].value()) + 2
            * BINADE,
{
    let q = pow2(ONE_EXPONENT as nat) as int;
    let u: int = 2 * BINADE as int;
    let (x, y) = (c[j].value(), h[j].value());
    lemma_one();
    lemma_pow2_pos(ONE_EXPONENT as nat);
    lemma_double(ONE as int);
    let p = fmul(lit(TWO), c[j]);
    law_product_absolute(lit(TWO), c[j]);
    law_difference_error(p, h[j]);
    let e = p.value() - 2 * x;
    assert(size_of(e) * u <= 2 * size_of(x) + u) by (nonlinear_arith)
        requires
            size_of(p.value() * q - (2 * q) * x) * u <= size_of((2 * q) * x) + q * u,
            e == p.value() - 2 * x,
            0 < q,
            0 < u,
    ;
    let d = doubled_less(c, h)[j].value();
    lemma_two_errors(d - (p.value() - y), e, d - (2 * x - y));
}

/// A contraction of the classic search goes half of the way from the centre to the corner, but
/// for roundings.
pub proof fn law_contraction_is_halfway(c: Seq<Real>, h: Seq<Real>, j: int)
    requires
        0 <= j < c.len(),
        c[j].finite(),
        h[j].finite(),
        halfway(c, h)[j].finite(),
    ensures
        size_of(2 * halfway(c, h)[j].value() - (c[j].value() + h[j].value())) * (2 * BINADE) <= 2
            * size_of(fmul(lit(HALF), h[j]).value() + fmul(lit(HALF), c[j]).value()) + size_of(
            c[j].value(),
        ) + size_of(h[j].value()) + 8 * BINADE,
{
    let (x, y) = (c[j].value(), h[j].value());
    lemma_half(c[j]);
    lemma_half(h[j]);
    let (a, b) = (fmul(lit(HALF), h[j]), fmul(lit(HALF), c[j]));
    law_sum_error(a, b);
    let d = halfway(c, h)[j].value();
    let f = d - (a.value() + b.value());
    lemma_two_errors(f, f, 2 * f);
    lemma_two_errors(2 * a.value() - y, 2 * b.value() - x, 2 * (a.value() + b.value()) - (x + y));
    lemma_two_errors(2 * f, 2 * (a.value() + b.value()) - (x + y), 2 * d - (x + y));
}

proof fn lemma_half(x: Real)
    requires
        x.finite(),
    ensures
        fmul(lit(HALF), x).finite(),
        size_of(2 * fmul(lit(HALF), x).value() - x.value()) * (2 * BINADE) <= size_of(x.value()) + 4
            * BINADE,
{
    let q = pow2(ONE_EXPONENT as nat) as int;
    let u: int = 2 * BINADE as int;
    lemma_one();
    lemma_pow2_pos(ONE_EXPONENT as nat);
    lemma_double(HALF as int);
    let h = mag(HALF as int);
    let a = fmul(lit(HALF), x);
    assert(0 <= mag(x.size())) by {
        assert(mag(0) == 0);
        if x.size() > 0 {
            lemma_mag_monotone(0, x.size());
        }
    }
    assert(h * mag(x.size()) <= mag(x.size()) * q) by (nonlinear_arith)
        requires
            2 * h == q,
            0 <= mag(x.size()),
            0 < q,
    ;
    law_product_bounded(lit(HALF), x, x.size());
    law_product_absolute(lit(HALF), x);
    let (v, w) = (a.value(), x.value());
    assert(size_of(2 * v - w) * u <= size_of(w) + 2 * u) by (nonlinear_arith)
        requires
            size_of(v * q - h * w) * u <= size_of(h * w) + q * u,
            2 * h == q,
            0 < q,
            0 < u,
    ;
}

/// A small count by a count.
proof fn lemma_share(a: Real, d: Real, k: int, n: int)
    requires
        1 <= k <= 2,
        a.finite(),
        !a.neg(),
        a.value() == k * one_quanta(),
        0 < n <= 0x10_0000,
        d.finite(),
        fle(lit(ONE), d),
        size_of(d.value() - n * one_quanta()) * (2 * BINADE) <= n * one_quanta(),
    ensures
        fdiv(a, d).finite(),
        0 <= fdiv(a, d).value() <= 2 * one_quanta(),
        0x10_0000 * size_of(fdiv(a, d).value() * n - k * one_quanta()) <= one_quanta(),
{
    let q = one_quanta();
    lemma_one();
    lemma_pow2_pos(ONE_EXPONENT as nat);
    assert(mag(0) == 0);
    law_divisor_lowers(a, lit(ONE), d);
    lemma_over_one(a);
    let c = fdiv(a, d);
    lemma_ranks_values(c, a);
    lemma_ranks_values(lit(ZERO), c);
    law_quotient_absolute(a, d);
    lemma2_to64_rest();
    lemma_pow2_strictly_increases(56, ONE_EXPONENT as nat);
    lemma_quotient_of_counts(c.value(), a.value(), d.value(), k, n, q);
}

/// 1 and 2 as numbers, and a count and its double.
proof fn lemma_counts(n: int)
    requires
        0 < n <= 0x8_0000,
    ensures
        ({
            let q = one_quanta();
            let d = fint(n);
            let e = fmul(lit(TWO), fint(n));
            &&& lit(ONE).value() == q && lit(TWO).value() == 2 * q
            &&& 4 * lit(THREE_QUARTERS).value() == 3 * q
            &&& d.finite() && e.finite()
            &&& fle(lit(ONE), d) && fle(lit(ONE), e)
            &&& size_of(d.value() - n * q) * (2 * BINADE) <= n * q
            &&& size_of(e.value() - (2 * n) * q) * (2 * BINADE) <= (2 * n) * q
        }),
{
    let q = one_quanta();
    let b = BINADE as int;
    let d = fint(n);
    lemma_one();
    lemma_pow2_pos(ONE_EXPONENT as nat);
    lemma_double(ONE as int);
    assert(mag(0) == 0);
    law_count_near(n);
    law_rounding_exact(ONE as int);
    assert(1 * q == q);
    assert(q <= n * q && n * q <= 0x8_0000 * q) by (nonlinear_arith)
        requires
            0 < n <= 0x8_0000,
            0 < q,
    ;
    law_rounding_monotone(q, n * q, 1);
    law_nearest_exists(n * q, 1);
    assert(d.size() == rounded(n * q, 1));
    let w: u64 = 0x4130_0000_0000_0000;
    law_power_of_two(w as int, 20);
    lemma2_to64();
    lemma2_to64_rest();
    lemma_pow2_adds(20, ONE_EXPONENT as nat);
    assert(d.value() <= mag(w as int)) by (nonlinear_arith)
        requires
            size_of(d.value() - n * q) * (2 * b) <= n * q,
            n * q <= 0x8_0000 * q,
            mag(w as int) == 0x10_0000 * q,
            b == 0x10_0000_0000_0000,
            0 < q,
    ;
    if d.size() > w {
        lemma_mag_monotone(w as int, d.size());
    }
    let e = Real { bits: (d.bits + BINADE) as u64 };
    lemma_double(d.size());
    let m = mag(d.size());
    assert((2 * q) * m == (2 * m) * q) by (nonlinear_arith);
    law_product_exact(lit(TWO), d, e);
    assert(e.value() - (2 * n) * q == 2 * (d.value() - n * q)) by (nonlinear_arith)
        requires
            e.value() == 2 * d.value(),
    ;
    let x = d.value() - n * q;
    assert(size_of(2 * x) * (2 * b) == 2 * (size_of(x) * (2 * b))) by (nonlinear_arith);
    assert((2 * n) * q == 2 * (n * q)) by (nonlinear_arith);
    let t: int = 1021;
    let h: int = THREE_QUARTERS - t * b;
    lemma_mag(t, h);
    lemma_pow2_adds(53, 1021);
    let y = pow2(1021) as int;
    assert(4 * (h * y) == 3 * (0x20_0000_0000_0000 * y)) by (nonlinear_arith)
        requires
            h == 0x18_0000_0000_0000,
    ;
}

/// The coefficients of the adaptive search in `n` dimensions: it goes on past a reflection by
/// two parts in `n`, holds back a contraction from three quarters by half a part, and shrinks
/// by one part.
pub proof fn law_coefficients_follow_dimension(n: nat)
    requires
        0 < n <= 0x8_0000,
    ensures
        ({
            let q = one_quanta();
            &&& gamma(n).finite() && rho(n).finite() && sigma(n).finite()
            &&& 0x1_0000 * size_of((gamma(n).value() - q) * n - 2 * q) <= q
            &&& 0x1_0000 * size_of((3 * q - 4 * rho(n).value()) * n - 2 * q) <= q
            &&& 0x1_0000 * size_of((q - sigma(n).value()) * n - q) <= q
        }),
{
    let q = one_quanta();
    let m = n as int;
    lemma_counts(m);
    lemma_pow2_pos(ONE_EXPONENT as nat);
    let one = lit(ONE);
    let (d, e) = (fint(m), fmul(lit(TWO), fint(m)));
    lemma_share(lit(TWO), d, 2, m);
    lemma_share(one, e, 1, 2 * m);
    lemma_share(one, d, 1, m);
    let (x, y, z) = (fdiv(lit(TWO), d), fdiv(one, e), fdiv(one, d));
    lemma_double(ONE as int);
    lemma_double(TWO as int);
    lemma_one();
    law_sum_bounded(one, x, FOUR as int);
    law_sum_bounded(lit(THREE_QUARTERS), fneg(y), FOUR as int);
    law_sum_bounded(one, fneg(z), FOUR as int);
    law_sum_error(one, x);
    law_difference_error(lit(THREE_QUARTERS), y);
    law_difference_error(one, z);
    let (g, r, s) = (gamma(n).value(), rho(n).value(), sigma(n).value());
    let t = lit(THREE_QUARTERS).value();
    lemma_off(g - (q + x.value()), x.value() * m - 2 * q, m, q);
    assert((g - q) * m - 2 * q == (x.value() * m - 2 * q) + (g - (q + x.value())) * m)
        by (nonlinear_arith);
    lemma_off(4 * ((t - y.value()) - r), 2 * (y.value() * (2 * m) - q), m, q);
    assert((3 * q - 4 * r) * m - 2 * q == 2 * (y.value() * (2 * m) - q) + (4 * ((t - y.value())
        - r)) * m) by (nonlinear_arith)
        requires
            4 * t == 3 * q,
    ;
    lemma_off((q - z.value()) - s, z.value() * m - q, m, q);
    assert((q - s) * m - q == (z.value() * m - q) + ((q - z.value()) - s) * m)
        by (nonlinear_arith);
}

proof fn lemma_off(e: int, f: int, n: int, q: int)
    requires
        0 < n <= 0x8_0000,
        0 < q,
        size_of(e) * (2 * BINADE) <= 16 * q,
        0x8_0000 * size_of(f) <= q,
    ensures
        0x1_0000 * size_of(f + e * n) <= q,
{
    let u: int = 0x20_0000_0000_0000;
    assert(0x2_0000 * size_of(e * n) <= q) by (nonlinear_arith)
        requires
            0 < n <= 0x8_0000,
            0 < q,
            size_of(e) * u <= 16 * q,
            u == 0x20_0000_0000_0000,
    ;
}

} // verus!
