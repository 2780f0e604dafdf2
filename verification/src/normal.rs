//! The error function and the logarithms of the normal density and distribution.
use vstd::prelude::*;
use vstd::arithmetic::power2::{lemma2_to64, lemma_pow2_pos, lemma_pow2_unfold, pow2};
use crate::host::{answer, ask, is_faithful, is_math, Call};
use crate::number::{fabs, fle, flt, fmax, fneg, lit, mag, Real, BINADE};
use crate::number::arith::{fadd, fdiv, fmul, fsub, ONE_EXPONENT};
use crate::number::convert::one_quanta;
use crate::number::error::{law_difference_error, law_power_of_two, size_of};
use crate::number::consts::{HALF, MINUS_HALF, MINUS_ONE, ONE, TWO, ZERO};
use crate::number::order::{law_commutes, law_difference_antitone, law_division_monotone,
    law_half_plus_reciprocal, law_negation, law_product_monotone, law_product_within,
    law_products_ordered, law_reach, law_reciprocal, law_signs, law_sum_monotone, law_sum_within,
    law_unit_factors, law_zero_added, lemma_double, lemma_gap, lemma_one, lemma_ranks_values,
    lemma_units, lemma_zero_rounds};

pub mod rise;
pub mod tail;
pub mod values;

verus! {

/// The square root of 2.
pub const SQRT_2: u64 = 0x3ff6_a09e_667f_3bcd;

/// The square root of twice pi.
pub const SQRT_2PI: u64 = 0x4004_0d93_1ff6_2705;

/// pi
pub const PI: u64 = 0x4009_21fb_5444_2d18;

/// 3
pub const THREE: u64 = 0x4008_0000_0000_0000;

/// 6
pub const SIX: u64 = 0x4018_0000_0000_0000;

/// 0.125
pub const ONE_EIGHTH: u64 = 0x3fc0_0000_0000_0000;

/// 0.1875
const THREE_SIXTEENTHS: u64 = 0x3fc8_0000_0000_0000;

/// 0.25
const ONE_QUARTER: u64 = 0x3fd0_0000_0000_0000;

/// 0.375
const THREE_EIGHTHS: u64 = 0x3fd8_0000_0000_0000;

/// 0.75
const THREE_QUARTERS: u64 = 0x3fe8_0000_0000_0000;

/// 0.875
pub const SEVEN_EIGHTHS: u64 = 0x3fec_0000_0000_0000;

/// 1.5
const THREE_HALVES: u64 = 0x3ff8_0000_0000_0000;

/// 2^-53, the last place of the numbers below 1.
const LAST_PLACE: u64 = 0x3ca0_0000_0000_0000;

/// 1.875
pub const FIFTEEN_EIGHTHS: u64 = 0x3ffe_0000_0000_0000;

/// 1.75
const SEVEN_QUARTERS: u64 = 0x3ffc_0000_0000_0000;

/// -6
pub const MINUS_SIX: u64 = 0xc018_0000_0000_0000;

/// 1e-300, the least probability whose logarithm is taken.
pub const LEAST: u64 = 0x01a5_6e1f_c2f8_f359;

/// 0.3275911
pub const ERF_P: u64 = 0x3fd4_f740_a93d_7b8c;

/// 0.254829592
pub const ERF_A1: u64 = 0x3fd0_4f20_c6ec_5a7e;

/// 0.284496736
pub const ERF_A2: u64 = 0x3fd2_3531_cc3c_1469;

/// 1.421413741
pub const ERF_A3: u64 = 0x3ff6_be1c_55ba_e157;

/// 1.453152027
pub const ERF_A4: u64 = 0x3ff7_401c_5701_4c39;

/// 1.061405429
pub const ERF_A5: u64 = 0x3ff0_fb84_4255_a12d;

/// `x * x`
pub open spec fn fsquare(x: Real) -> Real {
    fmul(x, x)
}

pub fn square_of(x: Real) -> (r: Real)
    ensures
        r == fsquare(x),
{
    x.times(x)
}

/// The series of the error function, by its coefficients.
pub open spec fn series_of(t: Real) -> Real {
    let c4 = fsub(fmul(lit(ERF_A5), t), lit(ERF_A4));
    let c3 = fadd(fmul(c4, t), lit(ERF_A3));
    let c2 = fsub(fmul(c3, t), lit(ERF_A2));
    fadd(fmul(c2, t), lit(ERF_A1))
}

/// The error function at `a`, which is not negative, by formula 7.1.26 of Abramowitz and
/// Stegun.
pub open spec fn erf_half<M: Fn(Call) -> Real>(math: M, a: Real) -> Real {
    let t = fdiv(lit(ONE), fadd(lit(ONE), fmul(lit(ERF_P), a)));
    fsub(lit(ONE), fmul(fmul(series_of(t), t), answer(math, Call::Exp(fmul(fneg(a), a)))))
}

fn erf_positive<M: Fn(Call) -> Real>(math: &M, a: Real) -> (r: Real)
    requires
        is_math(*math),
    ensures
        r == erf_half(*math, a),
{
    let t: Real = lit(ONE).over(lit(ONE).plus(lit(ERF_P).times(a)));
    let c4: Real = lit(ERF_A5).times(t).minus(lit(ERF_A4));
    let c3: Real = c4.times(t).plus(lit(ERF_A3));
    let c2: Real = c3.times(t).minus(lit(ERF_A2));
    let c1: Real = c2.times(t).plus(lit(ERF_A1));
    lit(ONE).minus(c1.times(t).times(ask(math, Call::Exp(a.negated().times(a)))))
}

/// The error function.
pub open spec fn erf_of<M: Fn(Call) -> Real>(math: M, x: Real) -> Real {
    fmul(
        if flt(x, lit(ZERO)) {
            lit(MINUS_ONE)
        } else {
            lit(ONE)
        },
        erf_half(math, fabs(x)),
    )
}

pub fn erf<M: Fn(Call) -> Real>(math: &M, x: Real) -> (r: Real)
    requires
        is_math(*math),
    ensures
        r == erf_of(*math, x),
{
    let sign: Real = if x.lt(lit(ZERO)) { lit(MINUS_ONE) } else { lit(ONE) };
    sign.times(erf_positive(math, x.abs()))
}

/// The complement of the error function.
pub open spec fn erfc_of<M: Fn(Call) -> Real>(math: M, x: Real) -> Real {
    fsub(lit(ONE), erf_of(math, x))
}

pub fn erfc<M: Fn(Call) -> Real>(math: &M, x: Real) -> (r: Real)
    requires
        is_math(*math),
    ensures
        r == erfc_of(*math, x),
{
    lit(ONE).minus(erf(math, x))
}

/// The logarithm of the normal density.
pub open spec fn norm_log_pdf_of<M: Fn(Call) -> Real>(math: M, z: Real) -> Real {
    fsub(fmul(fmul(lit(MINUS_HALF), z), z), answer(math, Call::Ln(lit(SQRT_2PI))))
}

pub fn norm_log_pdf<M: Fn(Call) -> Real>(math: &M, z: Real) -> (r: Real)
    requires
        is_math(*math),
    ensures
        r == norm_log_pdf_of(*math, z),
{
    lit(MINUS_HALF).times(z).times(z).minus(ask(math, Call::Ln(lit(SQRT_2PI))))
}

/// The asymptotic series of the normal distribution over its density, far below zero:
/// `-(1/x - 1/x^3 + 3/x^5)`.
pub open spec fn far_tail(x: Real) -> Real {
    let x2 = fmul(x, x);
    fneg(
        fadd(
            fsub(fdiv(lit(ONE), x), fdiv(lit(ONE), fmul(x, x2))),
            fdiv(lit(THREE), fmul(x, fmul(x2, x2))),
        ),
    )
}

/// The logarithm of the normal distribution, by the asymptotic series in the far tail.
pub open spec fn norm_log_cdf_of<M: Fn(Call) -> Real>(math: M, x: Real) -> Real {
    if fle(x, lit(MINUS_SIX)) {
        fadd(
            fsub(fmul(lit(MINUS_HALF), fmul(x, x)), answer(math, Call::Ln(lit(SQRT_2PI)))),
            answer(math, Call::Ln(far_tail(x))),
        )
    } else {
        answer(
            math,
            Call::Ln(fmax(fmul(lit(HALF), erfc_of(math, fdiv(fneg(x), lit(SQRT_2)))), lit(LEAST))),
        )
    }
}

pub fn norm_log_cdf<M: Fn(Call) -> Real>(math: &M, x: Real) -> (r: Real)
    requires
        is_math(*math),
    ensures
        r == norm_log_cdf_of(*math, x),
{
    if x.le(lit(MINUS_SIX)) {
        let x2: Real = x.times(x);
        let tail: Real = lit(ONE).over(x).minus(lit(ONE).over(x.times(x2))).plus(
            lit(THREE).over(x.times(x2.times(x2))),
        ).negated();
        lit(MINUS_HALF).times(x2).minus(ask(math, Call::Ln(lit(SQRT_2PI)))).plus(
            ask(math, Call::Ln(tail)),
        )
    } else {
        let half: Real = lit(HALF).times(erfc(math, x.negated().over(lit(SQRT_2))));
        ask(math, Call::Ln(half.max(lit(LEAST))))
    }
}

/// The logarithm of twice pi.
pub open spec fn ln_2pi<M: Fn(Call) -> Real>(math: M) -> Real {
    answer(math, Call::Ln(fmul(lit(TWO), lit(PI))))
}

/// The logarithm of the probability that a normal variable exceeds `z`, far above zero, by
/// its asymptotic form: `-z^2/2 - 1/z^2 - ln z - ln(2 pi)/2`.
pub open spec fn far_survival<M: Fn(Call) -> Real>(math: M, z: Real) -> Real {
    let z2 = fmul(z, z);
    fsub(
        fsub(
            fneg(fadd(fmul(lit(HALF), z2), fdiv(lit(ONE), z2))),
            answer(math, Call::Ln(z)),
        ),
        fmul(lit(HALF), ln_2pi(math)),
    )
}

/// The probability that a normal variable exceeds `z`.
pub open spec fn survival_of<M: Fn(Call) -> Real>(math: M, z: Real) -> Real {
    fmul(lit(HALF), fsub(lit(ONE), erf_of(math, fdiv(z, lit(SQRT_2)))))
}

/// The weight of a life that was censored at `z`: the logarithm of the probability that a
/// normal variable exceeds `z`, from 6 on by its asymptotic form.
pub open spec fn log_phi_cdf_of<M: Fn(Call) -> Real>(math: M, z: Real) -> Real {
    if fle(lit(SIX), z) {
        far_survival(math, z)
    } else {
        answer(math, Call::Ln(survival_of(math, z)))
    }
}

pub fn log_phi_cdf<M: Fn(Call) -> Real>(math: &M, z: Real) -> (r: Real)
    requires
        is_math(*math),
    ensures
        r == log_phi_cdf_of(*math, z),
{
    if lit(SIX).le(z) {
        let z2: Real = z.times(z);
        let ln: Real = ask(math, Call::Ln(z));
        let pi: Real = ask(math, Call::Ln(lit(TWO).times(lit(PI))));
        lit(HALF).times(z2).plus(lit(ONE).over(z2)).negated().minus(ln).minus(lit(HALF).times(pi))
    } else {
        let x: Real = lit(ONE).minus(erf(math, z.over(lit(SQRT_2))));
        ask(math, Call::Ln(lit(HALF).times(x)))
    }
}

/// The logarithm of the normal density.
pub open spec fn log_phi_pdf_of<M: Fn(Call) -> Real>(math: M, z: Real) -> Real {
    fmul(lit(MINUS_HALF), fadd(fmul(z, z), ln_2pi(math)))
}

pub fn log_phi_pdf<M: Fn(Call) -> Real>(math: &M, z: Real) -> (r: Real)
    requires
        is_math(*math),
    ensures
        r == log_phi_pdf_of(*math, z),
{
    lit(MINUS_HALF).times(z.times(z).plus(ask(math, Call::Ln(lit(TWO).times(lit(PI))))))
}

// ---- laws ----

/// The error function is odd.
pub proof fn law_erf_odd<M: Fn(Call) -> Real>(math: M, x: Real)
    requires
        is_faithful(math),
        !x.nan(),
        !x.zero(),
    ensures
        erf_of(math, fneg(x)) == fneg(erf_of(math, x)),
{
    let y = erf_half(math, fabs(x));
    lemma_erf_half_within(math, fabs(x));
    assert(fabs(fneg(x)) == fabs(x));
    assert(fneg(lit(ONE)) == lit(MINUS_ONE));
    assert(fneg(lit(MINUS_ONE)) == lit(ONE));
    law_signs(lit(ONE), y);
    law_signs(lit(MINUS_ONE), y);
    lemma_sign_kept(y);
}

pub proof fn lemma_sign_kept(y: Real)
    requires
        !y.nan(),
    ensures
        fmul(lit(ONE), y) == y,
        fmul(lit(MINUS_ONE), y) == fneg(y),
{
    law_commutes(lit(ONE), y);
    if y.finite() {
        law_unit_factors(y);
    }
    assert(fneg(lit(ONE)) == lit(MINUS_ONE));
    law_signs(lit(ONE), y);
}

/// The magnitude of a pattern in the unit `u`, by its significand `m`, shifted by `s`.
proof fn lemma_constant(n: int, s: int, m: int, u: int)
    requires
        0x3fb0_0000_0000_0000 <= n < 0x4040_0000_0000_0000,
        u == pow2(0x3fa),
        s == pow2((n / (BINADE as int) - 0x3fb) as nat),
        m == (BINADE + n % (BINADE as int)) * s,
    ensures
        mag(n) == m * u,
        0 < u,
{
    lemma_units(n);
}

/// The coefficients of the series, and the bounds on its parts, in one unit.
proof fn lemma_series_units(u: int)
    requires
        u == pow2(0x3fa),
    ensures
        0 < u,
        mag(ERF_A1 as int) == 0x41_3c83_1bb1_69f8 * u,
        mag(ERF_A2 as int) == 0x48_d4c7_30f0_51a4 * u,
        mag(ERF_A3 as int) == 0x16b_e1c5_5bae_1570 * u,
        mag(ERF_A4 as int) == 0x174_01c5_7014_c390 * u,
        mag(ERF_A5 as int) == 0x10f_b844_255a_12d0 * u,
        mag(ERF_A5 - BINADE) == 0x87_dc22_12ad_0968 * u,
        mag(ONE_EIGHTH as int) == 0x20_0000_0000_0000 * u,
        mag(THREE_SIXTEENTHS as int) == 0x30_0000_0000_0000 * u,
        mag(ONE_QUARTER as int) == 0x40_0000_0000_0000 * u,
        mag(THREE_EIGHTHS as int) == 0x60_0000_0000_0000 * u,
        mag(HALF as int) == 0x80_0000_0000_0000 * u,
        mag(THREE_QUARTERS as int) == 0xc0_0000_0000_0000 * u,
        mag(SEVEN_EIGHTHS as int) == 0xe0_0000_0000_0000 * u,
        mag(ONE as int) == 0x100_0000_0000_0000 * u,
        mag(THREE_HALVES as int) == 0x180_0000_0000_0000 * u,
        mag(FIFTEEN_EIGHTHS as int) == 0x1e0_0000_0000_0000 * u,
        mag(SEVEN_QUARTERS as int) == 0x1c0_0000_0000_0000 * u,
        mag(TWO as int) == 0x200_0000_0000_0000 * u,
{
    lemma2_to64();
    lemma_constant(ERF_A1 as int, 4, 0x41_3c83_1bb1_69f8, u);
    lemma_constant(ERF_A2 as int, 4, 0x48_d4c7_30f0_51a4, u);
    lemma_constant(ERF_A3 as int, 16, 0x16b_e1c5_5bae_1570, u);
    lemma_constant(ERF_A4 as int, 16, 0x174_01c5_7014_c390, u);
    lemma_constant(ERF_A5 as int, 16, 0x10f_b844_255a_12d0, u);
    lemma_constant(ERF_A5 - BINADE, 8, 0x87_dc22_12ad_0968, u);
    lemma_constant(ONE_EIGHTH as int, 2, 0x20_0000_0000_0000, u);
    lemma_constant(THREE_SIXTEENTHS as int, 2, 0x30_0000_0000_0000, u);
    lemma_constant(ONE_QUARTER as int, 4, 0x40_0000_0000_0000, u);
    lemma_constant(THREE_EIGHTHS as int, 4, 0x60_0000_0000_0000, u);
    lemma_constant(HALF as int, 8, 0x80_0000_0000_0000, u);
    lemma_constant(THREE_QUARTERS as int, 8, 0xc0_0000_0000_0000, u);
    lemma_constant(SEVEN_EIGHTHS as int, 8, 0xe0_0000_0000_0000, u);
    lemma_constant(ONE as int, 16, 0x100_0000_0000_0000, u);
    lemma_constant(THREE_HALVES as int, 16, 0x180_0000_0000_0000, u);
    lemma_constant(FIFTEEN_EIGHTHS as int, 16, 0x1e0_0000_0000_0000, u);
    lemma_constant(SEVEN_QUARTERS as int, 16, 0x1c0_0000_0000_0000, u);
    lemma_constant(TWO as int, 32, 0x200_0000_0000_0000, u);
}

/// Whether `x` lies between -2 and 2.
pub open spec fn is_tame(x: Real) -> bool {
    fle(fneg(lit(TWO)), x) && fle(x, lit(TWO))
}

/// The series lies between 0 and 15/8, and from 1/2 on no lower than 1/8; its parts are tame.
pub proof fn lemma_series(t: Real)
    requires
        fle(lit(ZERO), t),
        fle(t, lit(ONE)),
    ensures
        fle(lit(ZERO), series_of(t)),
        fle(series_of(t), lit(FIFTEEN_EIGHTHS)),
        fle(lit(HALF), t) ==> fle(lit(ONE_EIGHTH), series_of(t)),
        ({
            let p5 = fmul(lit(ERF_A5), t);
            let c4 = fsub(p5, lit(ERF_A4));
            let p4 = fmul(c4, t);
            let c3 = fadd(p4, lit(ERF_A3));
            let p3 = fmul(c3, t);
            let c2 = fsub(p3, lit(ERF_A2));
            let p2 = fmul(c2, t);
            &&& is_tame(p5) && is_tame(c4) && is_tame(p4) && is_tame(c3)
            &&& is_tame(p3) && is_tame(c2) && is_tame(p2)
        }),
{
    let u = pow2(0x3fa) as int;
    lemma_series_units(u);
    assert(mag(0) == 0);
    let p5 = fmul(lit(ERF_A5), t);
    let c4 = fsub(p5, lit(ERF_A4));
    let p4 = fmul(c4, t);
    let c3 = fadd(p4, lit(ERF_A3));
    let p3 = fmul(c3, t);
    let c2 = fsub(p3, lit(ERF_A2));
    let p2 = fmul(c2, t);
    law_products_ordered(lit(ERF_A5), lit(ERF_A5), t, lit(ONE));
    law_unit_factors(lit(ERF_A5));
    if flt(t, lit(HALF)) {
        law_sum_within(
            p5,
            lit(ZERO),
            lit(ERF_A5),
            fneg(lit(ERF_A4)),
            fneg(lit(THREE_HALVES)),
            lit(ONE_QUARTER),
        );
        law_product_within(c4, lit(THREE_HALVES), lit(ONE_QUARTER), t, lit(HALF));
        law_unit_factors(lit(THREE_HALVES));
        law_unit_factors(lit(ONE_QUARTER));
        law_sum_within(
            p4,
            fneg(lit(THREE_QUARTERS)),
            lit(ONE_EIGHTH),
            lit(ERF_A3),
            lit(HALF),
            lit(SEVEN_QUARTERS),
        );
        law_products_ordered(c3, lit(SEVEN_QUARTERS), t, lit(HALF));
        law_unit_factors(lit(SEVEN_QUARTERS));
        law_sum_within(
            p3,
            lit(ZERO),
            lit(SEVEN_EIGHTHS),
            fneg(lit(ERF_A2)),
            fneg(lit(THREE_EIGHTHS)),
            lit(THREE_QUARTERS),
        );
        law_product_within(c2, lit(THREE_EIGHTHS), lit(THREE_QUARTERS), t, lit(HALF));
        law_unit_factors(lit(THREE_EIGHTHS));
        law_unit_factors(lit(THREE_QUARTERS));
        law_sum_within(
            p2,
            fneg(lit(THREE_SIXTEENTHS)),
            lit(THREE_EIGHTHS),
            lit(ERF_A1),
            lit(ZERO),
            lit(FIFTEEN_EIGHTHS),
        );
    } else {
        law_products_ordered(lit(ERF_A5), lit(ERF_A5), lit(HALF), t);
        let low = lit((ERF_A5 - BINADE) as u64);
        law_sum_within(p5, low, lit(ERF_A5), fneg(lit(ERF_A4)), fneg(lit(ONE)), lit(ONE_QUARTER));
        law_product_within(c4, lit(ONE), lit(ONE_QUARTER), t, lit(ONE));
        law_unit_factors(lit(ONE));
        law_unit_factors(lit(ONE_QUARTER));
        law_sum_within(
            p4,
            fneg(lit(ONE)),
            lit(ONE_QUARTER),
            lit(ERF_A3),
            lit(THREE_EIGHTHS),
            lit(SEVEN_QUARTERS),
        );
        law_products_ordered(lit(THREE_EIGHTHS), c3, lit(HALF), t);
        law_products_ordered(c3, lit(SEVEN_QUARTERS), t, lit(ONE));
        law_unit_factors(lit(THREE_EIGHTHS));
        law_unit_factors(lit(SEVEN_QUARTERS));
        law_sum_within(
            p3,
            lit(THREE_SIXTEENTHS),
            lit(SEVEN_QUARTERS),
            fneg(lit(ERF_A2)),
            fneg(lit(ONE_EIGHTH)),
            lit(THREE_HALVES),
        );
        law_product_within(c2, lit(ONE_EIGHTH), lit(THREE_HALVES), t, lit(ONE));
        law_unit_factors(lit(ONE_EIGHTH));
        law_unit_factors(lit(THREE_HALVES));
        law_sum_within(
            p2,
            fneg(lit(ONE_EIGHTH)),
            lit(THREE_HALVES),
            lit(ERF_A1),
            lit(ONE_EIGHTH),
            lit(FIFTEEN_EIGHTHS),
        );
    }
}

proof fn lemma_minus_square(a: Real)
    requires
        fle(lit(ZERO), a),
    ensures
        fle(fmul(fneg(a), a), lit(ZERO)),
{
    if a.finite() {
        law_products_ordered(a, a, a, a);
        law_signs(a, a);
        law_negation(lit(ZERO), fmul(a, a));
    }
}

pub proof fn lemma_erf_half_within<M: Fn(Call) -> Real>(math: M, a: Real)
    requires
        is_faithful(math),
        fle(lit(ZERO), a),
    ensures
        fle(lit(MINUS_ONE), erf_half(math, a)),
        fle(erf_half(math, a), lit(ONE)),
        fle(fneg(lit(SEVEN_EIGHTHS)), erf_half(math, a)),
{
    let u = pow2(0x3fa) as int;
    lemma_series_units(u);
    assert(mag(0) == 0);
    let d = fadd(lit(ONE), fmul(lit(ERF_P), a));
    law_product_monotone(a, a, lit(ERF_P));
    law_commutes(a, lit(ERF_P));
    law_reach(lit(ONE), fmul(lit(ERF_P), a));
    law_reciprocal(d);
    let t = fdiv(lit(ONE), d);
    lemma_series(t);
    let c1 = series_of(t);
    let x = fmul(fneg(a), a);
    lemma_minus_square(a);
    let e = answer(math, Call::Exp(x));
    let p = fmul(c1, t);
    law_products_ordered(c1, lit(FIFTEEN_EIGHTHS), t, lit(ONE));
    law_unit_factors(lit(FIFTEEN_EIGHTHS));
    let y = fmul(p, e);
    law_products_ordered(p, lit(FIFTEEN_EIGHTHS), e, lit(ONE));
    law_negation(y, lit(FIFTEEN_EIGHTHS));
    law_negation(lit(ZERO), y);
    law_sum_within(
        fneg(y),
        fneg(lit(FIFTEEN_EIGHTHS)),
        fneg(lit(ZERO)),
        lit(ONE),
        fneg(lit(SEVEN_EIGHTHS)),
        lit(ONE),
    );
    law_commutes(fneg(y), lit(ONE));
    assert(fneg(lit(ONE)) == lit(MINUS_ONE));
}

/// The error function lies between -1 and 1.
pub proof fn law_erf_within<M: Fn(Call) -> Real>(math: M, x: Real)
    requires
        is_faithful(math),
        !x.nan(),
    ensures
        fle(lit(MINUS_ONE), erf_of(math, x)),
        fle(erf_of(math, x), lit(ONE)),
{
    let y = erf_half(math, fabs(x));
    lemma_erf_half_within(math, fabs(x));
    lemma_sign_kept(y);
}

/// A probability to survive lies between 0 and 1.
pub proof fn law_survival_is_probability<M: Fn(Call) -> Real>(math: M, z: Real)
    requires
        is_faithful(math),
        !z.nan(),
    ensures
        fle(lit(ZERO), survival_of(math, z)),
        fle(survival_of(math, z), lit(ONE)),
{
    let x = fdiv(z, lit(SQRT_2));
    law_division_monotone(z, z, lit(SQRT_2));
    law_erf_within(math, x);
    let e = erf_of(math, x);
    let u = pow2(0x3fa) as int;
    lemma_series_units(u);
    assert(mag(0) == 0);
    assert(fneg(lit(ONE)) == lit(MINUS_ONE));
    assert(fneg(lit(MINUS_ONE)) == lit(ONE));
    law_negation(lit(MINUS_ONE), e);
    law_negation(e, lit(ONE));
    let d = fsub(lit(ONE), e);
    law_sum_within(fneg(e), lit(MINUS_ONE), lit(ONE), lit(ONE), lit(ZERO), lit(TWO));
    law_commutes(fneg(e), lit(ONE));
    law_products_ordered(lit(HALF), lit(HALF), d, lit(TWO));
    law_unit_factors(lit(TWO));
    law_commutes(lit(HALF), lit(TWO));
}

/// What is left of numbers that are not positive when more is taken from the lesser.
proof fn lemma_lessened(a: Real, b: Real, l: Real, m: Real)
    requires
        fle(b, a),
        fle(a, lit(ZERO)),
        fle(lit(ZERO), l),
        fle(l, m),
    ensures
        fle(fsub(b, m), fsub(a, l)),
        fle(fsub(a, l), lit(ZERO)),
{
    law_negation(l, m);
    law_negation(lit(ZERO), l);
    if l.finite() {
        law_sum_monotone(b, a, fneg(l));
        law_sum_monotone(a, lit(ZERO), fneg(l));
        if !l.zero() {
            law_zero_added(fneg(l));
        }
        if b.finite() {
            law_difference_antitone(l, m, b);
        }
    }
}

/// The weight of a censored life is never positive: it is the logarithm of a probability.
pub proof fn law_weight_not_positive<M: Fn(Call) -> Real>(math: M, z: Real)
    requires
        is_faithful(math),
        !z.nan(),
    ensures
        fle(log_phi_cdf_of(math, z), lit(ZERO)),
{
    if fle(lit(SIX), z) {
        lemma_far_falls(math, z, z);
    } else {
        law_survival_is_probability(math, z);
    }
}

/// Far above zero the weight of a censored life falls.
pub proof fn lemma_far_falls<M: Fn(Call) -> Real>(math: M, y: Real, z: Real)
    requires
        is_faithful(math),
        fle(lit(SIX), y),
        fle(y, z),
    ensures
        fle(far_survival(math, z), far_survival(math, y)),
        fle(far_survival(math, y), lit(ZERO)),
{
    let v = fmul(y, y);
    let w = fmul(z, z);
    if y.finite() {
        law_products_ordered(y, y, lit(ONE), y);
        law_unit_factors(y);
    }
    if z.finite() {
        law_products_ordered(y, z, y, z);
    }
    law_half_plus_reciprocal(v, w);
    let a = fadd(fmul(lit(HALF), v), fdiv(lit(ONE), v));
    let b = fadd(fmul(lit(HALF), w), fdiv(lit(ONE), w));
    law_negation(a, b);
    law_negation(lit(ZERO), a);
    let l = answer(math, Call::Ln(y));
    let m = answer(math, Call::Ln(z));
    lemma_lessened(fneg(a), fneg(b), l, m);
    let c = fmul(lit(HALF), ln_2pi(math));
    law_products_ordered(lit(TWO), lit(TWO), lit(ONE), lit(PI));
    law_unit_factors(lit(TWO));
    law_product_monotone(ln_2pi(math), ln_2pi(math), lit(HALF));
    law_commutes(ln_2pi(math), lit(HALF));
    lemma_lessened(fsub(fneg(a), l), fsub(fneg(b), m), c, c);
}

/// The probability to survive is off by half of what the error function is off from any
/// number `e`, in quanta, but for one rounding: where that is the true error function, and
/// the one here within 1.5e-7 of it, the probability is right within 1e-7.
pub proof fn law_survival_error<M: Fn(Call) -> Real>(math: M, z: Real, e: int, slack: int)
    requires
        is_faithful(math),
        !z.nan(),
        size_of(erf_of(math, fdiv(z, lit(SQRT_2))).value() - e) <= slack,
    ensures
        size_of(2 * survival_of(math, z).value() - (one_quanta() - e)) * (2 * BINADE) <= slack * (
        2 * BINADE) + 2 * one_quanta(),
{
    let x = fdiv(z, lit(SQRT_2));
    law_division_monotone(z, z, lit(SQRT_2));
    law_erf_within(math, x);
    let f = erf_of(math, x);
    let q = one_quanta();
    lemma_one();
    assert(mag(0) == 0);
    assert(lit(ONE).value() == q);
    assert(lit(MINUS_ONE).value() == -q);
    lemma_ranks_values(lit(MINUS_ONE), f);
    lemma_ranks_values(f, lit(ONE));
    let d = fsub(lit(ONE), f);
    lemma_rest_of_one(f);
    law_difference_error(lit(ONE), f);
    law_commutes(lit(HALF), d);
    if d.zero() {
        law_products_ordered(lit(HALF), lit(HALF), d, d);
        law_unit_factors(lit(HALF));
        lemma_half_of_zero(d);
    } else {
        law_unit_factors(d);
        lemma_double(d.size() - BINADE);
    }
    assert(2 * survival_of(math, z).value() == d.value());
    let a = d.value() - (q - f.value());
    let b = e - f.value();
    let s = size_of(a + b);
    let (m, n) = (size_of(a), size_of(b));
    assert(d.value() - (q - e) == a + b);
    assert(s * (2 * BINADE) <= m * (2 * BINADE) + slack * (2 * BINADE)) by (nonlinear_arith)
        requires
            s <= m + n,
            n <= slack,
    ;
}

pub proof fn lemma_half_of_zero(d: Real)
    requires
        d.zero(),
    ensures
        fmul(lit(HALF), d).zero(),
{
    let x = mag(lit(HALF).size());
    assert(mag(0) == 0);
    assert(x * 0 == 0);
    lemma_pow2_pos(ONE_EXPONENT as nat);
    lemma_zero_rounds(pow2(ONE_EXPONENT as nat) as int);
}

/// What a number up to 1 leaves of 1 is nothing, or not among the least numbers.
proof fn lemma_rest_of_one(f: Real)
    requires
        fle(lit(MINUS_ONE), f),
        fle(f, lit(ONE)),
    ensures
        fsub(lit(ONE), f).finite(),
        !fsub(lit(ONE), f).neg() || fsub(lit(ONE), f).zero(),
        fsub(lit(ONE), f).zero() || fsub(lit(ONE), f).size() >= 2 * BINADE,
{
    lemma_one();
    assert(mag(0) == 0);
    let d = fsub(lit(ONE), f);
    law_negation(lit(MINUS_ONE), f);
    assert(fneg(lit(MINUS_ONE)) == lit(ONE));
    if f.rank() == ONE {
        assert(f == lit(ONE));
    } else {
        let p = lit((ONE - 1) as u64);
        let least = lit(LAST_PLACE);
        lemma_gap(ONE - 1);
        law_power_of_two(LAST_PLACE as int, -53);
        law_power_of_two(TWO as int, 1);
        law_power_of_two(ONE as int, 0);
        lemma_pow2_unfold(1075);
        assert(fle(f, p));
        law_negation(f, p);
        law_sum_within(fneg(f), fneg(p), lit(ONE), lit(ONE), least, lit(TWO));
        law_commutes(fneg(f), lit(ONE));
    }
}

} // verus!
