//! What the logarithms of the normal density and distribution are like.
use vstd::prelude::*;
use crate::host::{answer, is_faithful, Call};
use crate::normal::{erfc_of, far_tail, law_survival_is_probability, norm_log_cdf_of,
    norm_log_pdf_of, survival_of, LEAST, MINUS_SIX, SIX, SQRT_2, SQRT_2PI, THREE};
use crate::normal::rise::{grain, law_survival_nearly_falls};
use crate::number::{fabs, fle, flt, fmax, fneg, lit, mag, Real};
use crate::number::arith::{fadd, fdiv, fmul, fsub, ONE_EXPONENT};
use crate::number::consts::{HALF, MINUS_HALF, ONE, TWO, ZERO};
use crate::number::order::{law_commutes, law_nearest_exists, law_negation, law_product_monotone,
    law_products_ordered, law_reach, law_reciprocal_falls, law_rounding_exact, law_rounding_ratio,
    law_share_at_most, law_signs, law_sum_monotone, law_sum_within, law_unit_factors,
    lemma_double, lemma_one, lemma_ranks_values};
use crate::number::rounding::lemma_mag_monotone;
use vstd::arithmetic::power2::{lemma_pow2_pos, pow2};

verus! {

/// A quotient by twice its dividend or more is at most 1/2.
proof fn lemma_at_most_half(n: Real, d: Real)
    requires
        !n.neg(),
        n.finite(),
        flt(lit(ZERO), d),
        d.finite() ==> 2 * mag(n.size()) <= mag(d.size()),
    ensures
        fle(lit(ZERO), fdiv(n, d)),
        fle(fdiv(n, d), lit(HALF)),
{
    if d.finite() {
        let q = pow2(ONE_EXPONENT as nat) as int;
        let x = mag(n.size());
        let z = mag(d.size());
        let h = mag(HALF as int);
        lemma_pow2_pos(ONE_EXPONENT as nat);
        lemma_one();
        lemma_double(HALF as int);
        assert(mag(0) == 0);
        lemma_mag_monotone(0, d.size());
        if n.size() > 0 {
            lemma_mag_monotone(0, n.size());
        }
        assert(0 <= x * q && x * q * 1 <= h * z) by (nonlinear_arith)
            requires
                0 <= x,
                2 * x <= z,
                2 * h == q,
                0 < q,
        ;
        law_nearest_exists(x * q, z);
        law_rounding_ratio(x * q, z, h, 1);
        law_rounding_exact(HALF as int);
    }
}

/// The sign of a divisor is that of the quotient.
proof fn lemma_divisor_sign(n: Real, d: Real)
    requires
        n.finite(),
        flt(lit(ZERO), d),
    ensures
        fdiv(n, fneg(d)) == fneg(fdiv(n, d)),
{
    if d.finite() {
        let q = pow2(ONE_EXPONENT as nat) as int;
        let x = mag(n.size());
        lemma_pow2_pos(ONE_EXPONENT as nat);
        assert(mag(0) == 0);
        lemma_mag_monotone(0, d.size());
        if n.size() > 0 {
            lemma_mag_monotone(0, n.size());
        }
        assert(0 <= x * q) by (nonlinear_arith)
            requires
                0 <= x,
                0 < q,
        ;
        law_nearest_exists(x * q, mag(d.size()));
    }
}

/// Far below zero the asymptotic series lies between 0 and 1.
proof fn lemma_far_tail(x: Real)
    requires
        fle(x, lit(MINUS_SIX)),
        x.finite(),
        fmul(x, x).finite(),
    ensures
        fle(lit(ZERO), far_tail(x)),
        fle(far_tail(x), lit(ONE)),
{
    let a = fneg(x);
    let x2 = fmul(x, x);
    law_negation(x, lit(MINUS_SIX));
    assert(fneg(lit(MINUS_SIX)) == lit(SIX));
    law_signs(a, x);
    law_signs(x, a);
    law_commutes(a, x);
    assert(x2 == fmul(a, a));
    law_products_ordered(lit(ONE), a, a, a);
    law_unit_factors(a);
    law_commutes(lit(ONE), a);
    assert(fle(a, x2));
    let x3 = fmul(a, x2);
    law_product_monotone(a, a, x2);
    law_products_ordered(lit(ONE), x2, a, a);
    law_commutes(x2, a);
    assert(fle(a, x3));
    law_signs(a, x2);
    let x4 = fmul(x2, x2);
    law_products_ordered(lit(ONE), x2, x2, x2);
    law_unit_factors(x2);
    law_commutes(lit(ONE), x2);
    assert(fle(x2, x4));
    let x5 = fmul(a, x4);
    law_product_monotone(x4, x4, a);
    law_product_monotone(lit(ONE), x4, a);
    law_commutes(x4, a);
    assert(fle(a, x5));
    law_signs(a, x4);
    let r1 = fdiv(lit(ONE), a);
    let r3 = fdiv(lit(ONE), x3);
    let r5 = fdiv(lit(THREE), x5);
    lemma_divisor_sign(lit(ONE), a);
    lemma_divisor_sign(lit(ONE), x3);
    lemma_divisor_sign(lit(THREE), x5);
    assert(fdiv(lit(ONE), x) == fneg(r1));
    assert(fdiv(lit(ONE), fmul(x, x2)) == fneg(r3));
    assert(fdiv(lit(THREE), fmul(x, x4)) == fneg(r5));
    lemma_one();
    assert(mag(0) == 0);
    lemma_double(ONE as int);
    lemma_double(HALF as int);
    lemma_double(THREE as int);
    assert(THREE + crate::number::BINADE == SIX);
    assert(ONE + crate::number::BINADE == TWO);
    lemma_ranks_values(lit(TWO), lit(SIX));
    lemma_ranks_values(lit(SIX), a);
    if x5.finite() {
        lemma_ranks_values(lit(SIX), x5);
    }
    lemma_at_most_half(lit(ONE), a);
    lemma_at_most_half(lit(THREE), x5);
    law_reciprocal_falls(a, x3);
    if x3.finite() {
        lemma_ranks_values(lit(SIX), x3);
    }
    lemma_at_most_half(lit(ONE), x3);
    let u = fsub(fneg(r1), fneg(r3));
    law_sum_monotone(r3, r1, fneg(r1));
    law_commutes(r3, fneg(r1));
    assert(fneg(fneg(r3)) == r3);
    assert(fadd(r1, fneg(r1)).zero());
    assert(fle(u, lit(ZERO)));
    law_reach(fneg(r1), r3);
    law_negation(r1, lit(HALF));
    assert(fneg(lit(HALF)) == lit(MINUS_HALF));
    lemma_ranks_values(lit(ZERO), r5);
    lemma_ranks_values(r5, lit(HALF));
    law_sum_within(u, lit(MINUS_HALF), lit(ZERO), fneg(r5), fneg(lit(ONE)), lit(ZERO));
    law_negation(fneg(lit(ONE)), fadd(u, fneg(r5)));
    law_negation(fadd(u, fneg(r5)), lit(ZERO));
}

/// The logarithm of the distribution is that of the probability to survive, up to 6.
pub proof fn lemma_near_cdf<M: Fn(Call) -> Real>(math: M, z: Real)
    requires
        !fle(lit(SIX), z),
    ensures
        norm_log_cdf_of(math, fneg(z)) == answer(
            math,
            Call::Ln(fmax(survival_of(math, z), lit(LEAST))),
        ),
{
    law_negation(fneg(z), lit(MINUS_SIX));
    assert(fneg(lit(MINUS_SIX)) == lit(SIX));
}

/// The logarithm of the distribution is never positive, and far below zero at most minus
/// half the square.
pub proof fn law_log_cdf_not_positive<M: Fn(Call) -> Real>(math: M, x: Real)
    requires
        is_faithful(math),
    ensures
        !norm_log_cdf_of(math, x).nan() ==> fle(norm_log_cdf_of(math, x), lit(ZERO)),
        fle(x, lit(MINUS_SIX)) && !norm_log_cdf_of(math, x).nan() ==> fle(
            norm_log_cdf_of(math, x),
            fneg(fmul(lit(HALF), fmul(x, x))),
        ),
{
    let c = answer(math, Call::Ln(lit(SQRT_2PI)));
    let r = norm_log_cdf_of(math, x);
    if fle(x, lit(MINUS_SIX)) {
        let a = fneg(x);
        let x2 = fmul(x, x);
        law_negation(x, lit(MINUS_SIX));
        assert(fneg(lit(MINUS_SIX)) == lit(SIX));
        law_signs(a, x);
        law_signs(x, a);
        law_commutes(a, x);
        let h = fmul(lit(MINUS_HALF), x2);
        law_signs(lit(HALF), x2);
        assert(fneg(lit(HALF)) == lit(MINUS_HALF));
        if x.finite() {
            law_products_ordered(a, a, a, a);
            assert(fle(lit(ZERO), x2));
        }
        law_product_monotone(x2, x2, lit(HALF));
        law_commutes(x2, lit(HALF));
        assert(h == fneg(fmul(lit(HALF), x2)));
        law_negation(lit(ZERO), fmul(lit(HALF), x2));
        if x2.finite() {
            lemma_far_tail(x);
            let l = answer(math, Call::Ln(far_tail(x)));
            assert(fle(l, lit(ZERO)));
            assert(fle(lit(ZERO), c));
            law_negation(l, lit(ZERO));
            if h.finite() {
                law_reach(h, c);
                let d = fsub(h, c);
                if d.finite() {
                    law_reach(d, fneg(l));
                    assert(fneg(fneg(l)) == l);
                }
            }
        }
    } else {
        let y = fdiv(fneg(x), lit(SQRT_2));
        let p = fmul(lit(HALF), erfc_of(math, y));
        if !x.nan() {
            assert(p == survival_of(math, fneg(x)));
            law_survival_is_probability(math, fneg(x));
        }
        assert(fle(lit(LEAST), lit(ONE)));
    }
}

/// Minus half the square of a number, as the density takes it.
pub proof fn lemma_half_square(z: Real)
    requires
        !z.nan(),
    ensures
        fmul(fmul(lit(MINUS_HALF), z), z) == fneg(fmul(fmul(lit(HALF), fabs(z)), fabs(z))),
        fle(lit(ZERO), fmul(fmul(lit(HALF), fabs(z)), fabs(z))),
{
    let a = fabs(z);
    let h = lit(HALF);
    let p = fmul(h, a);
    assert(fneg(h) == lit(MINUS_HALF));
    law_product_monotone(a, a, h);
    law_commutes(a, h);
    if a.finite() {
        law_share_at_most(a, h);
        law_products_ordered(p, p, a, a);
    } else {
        assert(p.inf() && !p.neg());
    }
    assert(fle(lit(ZERO), fmul(p, a)));
    law_signs(h, a);
    law_signs(p, a);
    if z.neg() {
        assert(z == fneg(a));
        law_commutes(fneg(h), z);
        law_signs(a, fneg(h));
        law_commutes(a, fneg(h));
        law_negation(p, lit(ZERO));
        assert(fmul(fneg(h), z) == p);
        law_commutes(p, z);
        law_signs(a, p);
        law_commutes(a, p);
    } else {
        assert(z == a);
    }
}

/// The logarithm of the density is the same on both sides.
pub proof fn law_log_pdf_even<M: Fn(Call) -> Real>(math: M, z: Real)
    requires
        !z.nan(),
    ensures
        norm_log_pdf_of(math, fneg(z)) == norm_log_pdf_of(math, z),
{
    lemma_half_square(z);
    lemma_half_square(fneg(z));
    assert(fabs(fneg(z)) == fabs(z));
}

/// The further from zero, the less the logarithm of the density, and it is at most minus half
/// the square.
pub proof fn law_log_pdf_falls<M: Fn(Call) -> Real>(math: M, y: Real, z: Real)
    requires
        is_faithful(math),
        answer(math, Call::Ln(lit(SQRT_2PI))).finite(),
        fle(fabs(y), fabs(z)),
        z.finite(),
    ensures
        fle(norm_log_pdf_of(math, z), norm_log_pdf_of(math, y)),
        fmul(fmul(lit(HALF), fabs(z)), fabs(z)).finite() ==> fle(
            norm_log_pdf_of(math, z),
            fneg(fmul(fmul(lit(HALF), fabs(z)), fabs(z))),
        ),
{
    let c = answer(math, Call::Ln(lit(SQRT_2PI)));
    let (a, b) = (fabs(y), fabs(z));
    lemma_half_square(y);
    lemma_half_square(z);
    law_product_monotone(a, b, lit(HALF));
    law_commutes(a, lit(HALF));
    law_commutes(b, lit(HALF));
    let (p, q) = (fmul(lit(HALF), a), fmul(lit(HALF), b));
    law_share_at_most(b, lit(HALF));
    law_commutes(b, lit(HALF));
    law_products_ordered(p, q, a, b);
    law_negation(fmul(p, a), fmul(q, b));
    law_sum_monotone(fneg(fmul(q, b)), fneg(fmul(p, a)), fneg(c));
    if fmul(q, b).finite() {
        law_reach(fneg(fmul(q, b)), c);
    }
}

/// Up to 6, the probability to survive falls with `z`, and its logarithm with it, but where
/// the roundings set two probabilities apart by 2^-46 or less.
pub proof fn law_near_cdf_falls<M: Fn(Call) -> Real>(math: M, y: Real, z: Real)
    requires
        is_faithful(math),
        fle(y, z),
        flt(z, lit(SIX)),
    ensures
        fle(norm_log_cdf_of(math, fneg(z)), norm_log_cdf_of(math, fneg(y))) || (
        survival_of(math, y).value() < survival_of(math, z).value() && survival_of(
            math,
            z,
        ).value() <= survival_of(math, y).value() + 16 * grain()),
{
    let p = survival_of(math, y);
    let q = survival_of(math, z);
    lemma_near_cdf(math, y);
    lemma_near_cdf(math, z);
    law_survival_is_probability(math, y);
    law_survival_is_probability(math, z);
    if !fle(q, p) {
        law_survival_nearly_falls(math, y, z);
        assert(mag(0) == 0);
        lemma_mag_monotone(p.size(), q.size());
    }
}

} // verus!
