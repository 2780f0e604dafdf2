//! What the criterion of a report says of its fit.
use vstd::prelude::*;
use crate::fit::{FitRequest, FitResult};
use crate::fit::decimals::{law_reported_is_near, law_reports_keep_order, BILLION};
use crate::fit::problem::sum_of;
use crate::fit::report::MILLION;
use crate::fit::run::{found, law_fit_descends, objective_of, plan_of, result_is};
use crate::fit::select::chosen;
use crate::host::{Call, Print};
use crate::number::{fabs, fle, fneg, lit, mag, Real, BINADE};
use crate::number::arith::{fadd, fmul, ONE_EXPONENT};
use crate::number::consts::{ONE, TWO, ZERO};
use crate::number::convert::{fint, one_quanta};
use crate::number::error::{law_power_of_two, law_product_absolute, law_sum_error, size_of};
use crate::number::order::{law_commutes, law_scaling_monotone, law_sum_monotone, lemma_double,
    lemma_one};
use crate::number::rounding::{lemma_mag, lemma_mag_monotone};
use crate::number::shape::{law_count_near, law_product_bounded, law_sum_bounded};
use crate::simplex::numeric;
use crate::specimen::Specimen;
use vstd::arithmetic::power2::{lemma2_to64, lemma2_to64_rest, lemma_pow2_adds, lemma_pow2_pos,
    lemma_pow2_strictly_increases, pow2};

verus! {

/// 2^28
pub const ROOM: u64 = 0x41b0_0000_0000_0000;

/// 2^29
pub const TWICE_ROOM: u64 = 0x41c0_0000_0000_0000;

pub proof fn lemma_room()
    ensures
        mag(ROOM as int) == 0x1000_0000 * one_quanta(),
        mag(TWICE_ROOM as int) == 0x2000_0000 * one_quanta(),
        mag(BILLION as int) == 0x4000_0000 * one_quanta(),
        mag(TWO as int) == 2 * one_quanta(),
        lit(MILLION).value() == 1_000_000 * one_quanta(),
        0x100_0000_0000_0000 <= one_quanta(),
{
    law_power_of_two(ROOM as int, 28);
    law_power_of_two(TWICE_ROOM as int, 29);
    law_power_of_two(BILLION as int, 30);
    lemma2_to64();
    lemma2_to64_rest();
    lemma_pow2_adds(28, ONE_EXPONENT as nat);
    lemma_pow2_adds(29, ONE_EXPONENT as nat);
    lemma_pow2_adds(30, ONE_EXPONENT as nat);
    lemma_pow2_strictly_increases(56, ONE_EXPONENT as nat);
    lemma_one();
    lemma_double(ONE as int);
    let h = MILLION - 1041 * BINADE;
    lemma_mag(1041, h);
    lemma_pow2_adds(33, 1041);
    let w = pow2(1041) as int;
    assert(h * w == 1_000_000 * (0x2_0000_0000 * w)) by (nonlinear_arith)
        requires
            h == 0x1e_8480_0000_0000,
    ;
}

/// Twice a number and twice a count, rounded on the way.
pub proof fn lemma_twice_both(f: Real, k: int)
    requires
        f.finite(),
        size_of(f.value()) <= mag(ROOM as int),
        0 <= k <= 0x10_0000,
    ensures
        ({
            let a = fadd(fmul(lit(TWO), f), fmul(lit(TWO), fint(k)));
            &&& a.finite()
            &&& fle(fabs(a), lit(BILLION))
            &&& 0x40_0000 * size_of(a.value() - (2 * f.value() + 2 * (k * one_quanta())))
                <= one_quanta()
        }),
{
    let q = one_quanta();
    let u: int = 0x20_0000_0000_0000;
    lemma_room();
    lemma_pow2_pos(ONE_EXPONENT as nat);
    assert(mag(0) == 0);
    let n = fint(k);
    law_count_near(k);
    let kq = k * q;
    assert(0 <= kq <= 0x10_0000 * q) by (nonlinear_arith)
        requires
            kq == k * q,
            0 <= k <= 0x10_0000,
            0 < q,
    ;
    let two = lit(TWO);
    let (x, y) = (mag(f.size()), mag(n.size()));
    if f.size() > 0 {
        lemma_mag_monotone(0, f.size());
    }
    if n.size() > 0 {
        lemma_mag_monotone(0, n.size());
    }
    assert((2 * q) * x <= mag(TWICE_ROOM as int) * q) by (nonlinear_arith)
        requires
            x <= 0x1000_0000 * q,
            mag(TWICE_ROOM as int) == 0x2000_0000 * q,
            0 < q,
    ;
    law_product_bounded(two, f, TWICE_ROOM as int);
    assert(size_of(n.value() - kq) <= q) by (nonlinear_arith)
        requires
            size_of(n.value() - kq) * u <= kq,
            kq <= 0x10_0000 * q,
            u == 0x20_0000_0000_0000,
            0 < q,
    ;
    assert((2 * q) * y <= mag(ROOM as int) * q) by (nonlinear_arith)
        requires
            y <= 0x20_0000 * q,
            mag(ROOM as int) == 0x1000_0000 * q,
            0 < q,
    ;
    law_product_bounded(two, n, ROOM as int);
    let b = fmul(two, f);
    let c = fmul(two, n);
    law_product_absolute(two, f);
    law_product_absolute(two, n);
    law_sum_bounded(b, c, BILLION as int);
    law_sum_error(b, c);
    let a = fadd(b, c);
    lemma_doubled(b.value(), f.value(), q, u);
    lemma_doubled(c.value(), n.value(), q, u);
    let (fv, nv, bv, cv, av) = (f.value(), n.value(), b.value(), c.value(), a.value());
    let e = size_of(av - (2 * fv + 2 * kq));
    let (e1, e2, e3, e4) = (
        size_of(bv - 2 * fv),
        size_of(cv - 2 * nv),
        size_of(av - (bv + cv)),
        size_of(nv - kq),
    );
    assert(e <= e1 + e2 + e3 + 2 * e4);
    assert(e1 * u <= 0x2000_0000 * q + u);
    assert(e2 * u <= 2 * (0x20_0000 * q) + u);
    assert(e3 * u <= 0x4000_0000 * q);
    assert(e4 * u <= 0x10_0000 * q);
    assert(0x40_0000 * e <= q) by (nonlinear_arith)
        requires
            e <= e1 + e2 + e3 + 2 * e4,
            e1 * u <= 0x2000_0000 * q + u,
            e2 * u <= 2 * (0x20_0000 * q) + u,
            e3 * u <= 0x4000_0000 * q,
            e4 * u <= 0x10_0000 * q,
            u == 0x20_0000_0000_0000,
            0x100_0000_0000_0000 <= q,
    ;
}

proof fn lemma_doubled(b: int, f: int, q: int, u: int)
    requires
        0 < q,
        0 < u,
        size_of(b * q - (2 * q) * f) * u <= size_of((2 * q) * f) + q * u,
    ensures
        size_of(b - 2 * f) * u <= 2 * size_of(f) + u,
{
    let d = b - 2 * f;
    let (gd, gf) = (size_of(d), size_of(f));
    assert(b * q - (2 * q) * f == d * q && size_of(d * q) == gd * q && size_of((2 * q) * f) == 2 * gf
        * q) by (nonlinear_arith)
        requires
            d == b - 2 * f,
            gd == (if d < 0 { -d } else { d }),
            gf == (if f < 0 { -f } else { f }),
            0 < q,
    {
        assert(d >= 0 ==> d * q >= 0) by (nonlinear_arith)
            requires
                0 < q,
        ;
        assert(d < 0 ==> d * q < 0) by (nonlinear_arith)
            requires
                0 < q,
        ;
        assert(f >= 0 ==> (2 * q) * f >= 0) by (nonlinear_arith)
            requires
                0 < q,
        ;
        assert(f < 0 ==> (2 * q) * f < 0) by (nonlinear_arith)
            requires
                0 < q,
        ;
    }
    assert(gd * u <= 2 * gf + u) by (nonlinear_arith)
        requires
            gd * q * u <= 2 * gf * q + q * u,
            0 < q,
    ;
}

/// The minimum of the objective that the fit of a request found.
pub open spec fn minimum_of<M: Fn(Call) -> Real>(math: M, all: Seq<Specimen>, req: FitRequest) -> Real {
    let specs = chosen(all, req.criterion@, req.damage_model, all.len());
    found(math, plan_of(req, specs), specs).1
}

/// The criterion of a report is twice the minimum of the objective plus twice the number of
/// free parameters, within two millionths.
pub proof fn law_aic_is_minimum_and_parameters<M: Fn(Call) -> Real, S: Fn(Print) -> String>(
    math: M,
    show: S,
    all: Seq<Specimen>,
    req: FitRequest,
    r: FitResult,
)
    requires
        result_is(math, show, all, req, r),
        minimum_of(math, all, req).finite(),
        size_of(minimum_of(math, all, req).value()) <= 0x1000_0000 * one_quanta(),
        r.n_free_params <= 0x10_0000,
    ensures
        r.aic.finite(),
        1_000_000 * size_of(
            r.aic.value() - (2 * minimum_of(math, all, req).value() + 2 * (r.n_free_params
                * one_quanta())),
        ) <= 2 * one_quanta(),
{
    let f = minimum_of(math, all, req);
    let k = r.n_free_params as int;
    lemma_room();
    lemma_twice_both(f, k);
    let a = fadd(fmul(lit(TWO), f), fmul(lit(TWO), fint(k)));
    law_reported_is_near(a, lit(MILLION), 1_000_000);
}

/// Of two fits with as many free parameters, the one of the lower minimum never has the
/// greater criterion.
pub proof fn law_aic_orders_fits<M: Fn(Call) -> Real, S: Fn(Print) -> String>(
    math: M,
    show: S,
    all: Seq<Specimen>,
    req: FitRequest,
    r: FitResult,
    others: Seq<Specimen>,
    other: FitRequest,
    s: FitResult,
)
    requires
        result_is(math, show, all, req, r),
        result_is(math, show, others, other, s),
        r.n_free_params == s.n_free_params,
        r.n_free_params <= 0x10_0000,
        fle(minimum_of(math, all, req), minimum_of(math, others, other)),
    ensures
        fle(r.aic, s.aic),
{
    let (f, g) = (minimum_of(math, all, req), minimum_of(math, others, other));
    let two = lit(TWO);
    let k = r.n_free_params as int;
    lemma_room();
    law_scaling_monotone(f, g, two);
    law_commutes(f, two);
    law_commutes(g, two);
    assert(mag(0) == 0);
    let zero = lit(ZERO);
    lemma_twice_both(zero, k);
    let n = fmul(two, fint(k));
    lemma_count_doubled(k);
    law_sum_monotone(fmul(two, f), fmul(two, g), n);
    law_reports_keep_order(fadd(fmul(two, f), n), fadd(fmul(two, g), n), lit(MILLION));
}

pub proof fn lemma_count_doubled(k: int)
    requires
        0 <= k <= 0x10_0000,
    ensures
        fmul(lit(TWO), fint(k)).finite(),
{
    let q = one_quanta();
    let u: int = 0x20_0000_0000_0000;
    lemma_room();
    lemma_pow2_pos(ONE_EXPONENT as nat);
    assert(mag(0) == 0);
    law_count_near(k);
    let n = fint(k);
    let kq = k * q;
    assert(0 <= kq <= 0x10_0000 * q) by (nonlinear_arith)
        requires
            kq == k * q,
            0 <= k <= 0x10_0000,
            0 < q,
    ;
    assert(size_of(n.value() - kq) <= q) by (nonlinear_arith)
        requires
            size_of(n.value() - kq) * u <= kq,
            kq <= 0x10_0000 * q,
            u == 0x20_0000_0000_0000,
            0 < q,
    ;
    let y = mag(n.size());
    if n.size() > 0 {
        lemma_mag_monotone(0, n.size());
    }
    assert((2 * q) * y <= mag(ROOM as int) * q) by (nonlinear_arith)
        requires
            y <= 0x20_0000 * q,
            mag(ROOM as int) == 0x1000_0000 * q,
            0 < q,
    ;
    law_product_bounded(lit(TWO), n, ROOM as int);
}

/// The criterion, the log-likelihood and the number of free parameters of a report balance:
/// twice the parameters, less twice the log-likelihood, plus twice the penalty of the offsets
/// is the criterion, within five millionths.
pub proof fn law_aic_balances_likelihood<M: Fn(Call) -> Real, S: Fn(Print) -> String>(
    math: M,
    show: S,
    all: Seq<Specimen>,
    req: FitRequest,
    r: FitResult,
)
    requires
        result_is(math, show, all, req, r),
        r.n_free_params <= 0x10_0000,
        ({
            let specs = chosen(all, req.criterion@, req.damage_model, all.len());
            let plan = plan_of(req, specs);
            let u = found(math, plan, specs).0;
            let sum = sum_of(math, plan, u, specs, specs.len());
            let pen = plan.penalty_of(math, u, plan.n_heat());
            &&& numeric(objective_of(math, plan, specs))
            &&& 0 < plan.heats.len() < usize::MAX - 8
            &&& sum.finite() && size_of(sum.value()) <= 0x400_0000 * one_quanta()
            &&& pen.finite() && size_of(pen.value()) <= 0x400_0000 * one_quanta()
        }),
    ensures
        ({
            let specs = chosen(all, req.criterion@, req.damage_model, all.len());
            let plan = plan_of(req, specs);
            let pen = plan.penalty_of(math, found(math, plan, specs).0, plan.n_heat());
            1_000_000 * size_of(
                r.aic.value() + 2 * r.log_likelihood.value() - 2 * (r.n_free_params
                    * one_quanta()) - 2 * pen.value(),
            ) <= 5 * one_quanta()
        }),
{
    let q = one_quanta();
    let un: int = 0x20_0000_0000_0000;
    let specs = chosen(all, req.criterion@, req.damage_model, all.len());
    let plan = plan_of(req, specs);
    let (u, f) = found(math, plan, specs);
    let sum = sum_of(math, plan, u, specs, specs.len());
    let pen = plan.penalty_of(math, u, plan.n_heat());
    law_fit_descends(math, plan, specs);
    assert(f == fadd(sum, pen));
    lemma_room();
    lemma_pow2_pos(ONE_EXPONENT as nat);
    law_sum_bounded(sum, pen, ROOM as int);
    law_sum_error(sum, pen);
    law_aic_is_minimum_and_parameters(math, show, all, req, r);
    let x = fneg(sum);
    assert(mag(0) == 0);
    if x.size() > BILLION {
        lemma_mag_monotone(BILLION as int, x.size());
    }
    law_reported_is_near(x, lit(MILLION), 1_000_000);
    let (a, l, s, p, fv) = (
        r.aic.value(),
        r.log_likelihood.value(),
        sum.value(),
        pen.value(),
        f.value(),
    );
    let k = r.n_free_params * q;
    let e1 = size_of(a - (2 * fv + 2 * k));
    let e2 = size_of(l + s);
    let e3 = size_of(fv - (s + p));
    let e = size_of(a + 2 * l - 2 * k - 2 * p);
    assert(e <= e1 + 2 * e2 + 2 * e3);
    assert(e3 * un <= 0x800_0000 * q);
    assert(1_000_000 * e <= 5 * q) by (nonlinear_arith)
        requires
            e <= e1 + 2 * e2 + 2 * e3,
            1_000_000 * e1 <= 2 * q,
            1_000_000 * e2 <= q,
            e3 * un <= 0x800_0000 * q,
            un == 0x20_0000_0000_0000,
            0 < q,
    ;
}

} // verus!
