//! What the predictions of a report follow from: its parameters, its offsets and its spread,
//! and how they stand to its rows and to each other.
use vstd::prelude::*;
use crate::fit::{FitRequest, FitResult, ParamReport};
use crate::fit::covariance::{grad_u_of, DERIVATIVE_STEP};
use crate::fit::decimals::law_reports_keep_order;
use crate::fit::master::MasterModel;
use crate::fit::problem::{row_is, score_of, Plan};
use crate::fit::report::{offset_is, rounded_at, HUNDRED};
use crate::fit::run::{cutoff_of, found, heat_variance, notes_bound, offset_squares, plan_of,
    prediction_is, result_is, spread_of, target_heat, Ground, LEAST_VARIANCE, Z95};
use crate::fit::select::chosen;
use crate::fit::target::target_kelvin_of;
use crate::host::{answer, is_faithful, of_ordinary_size, takes_roots, Call, Print};
use crate::linalg::{bumped, dipped, form_of, fsum};
use crate::number::{fabs, feq, fle, flt, fmax, lit, mag, signed, Real, BINADE, INF};
use crate::number::arith::{fadd, fdiv, fmul, fsub, ONE_EXPONENT};
use crate::number::consts::{ONE, TWO, ZERO};
use crate::number::convert::{fint, one_quanta};
use crate::number::error::{law_power_of_two, size_of};
use crate::number::order::{law_commutes, law_difference_antitone, law_nearest_exists,
    law_product_monotone, law_products_ordered, law_quotient_monotone, law_rounding_exact,
    law_rounding_monotone, law_rounding_scaled, law_sum_exact, law_sum_grows, law_sum_monotone,
    law_sums_ordered, law_unit_factors, law_zero_added, lemma_double, lemma_one};
use crate::number::rounding::lemma_mag_monotone;
use crate::number::shape::{law_central_difference, law_nothing_left, lemma_over_one,
    lemma_size_of_share, lemma_square_of_size};
use crate::specimen::Specimen;
use crate::text::{given_if, lemma_index_in, views};
use vstd::arithmetic::power2::{lemma2_to64, lemma_pow2_adds, lemma_pow2_pos};

verus! {

/// 1.9599, just below the normal quantile of a two-sided interval of 95 percent.
pub const QUANTILE: u64 = 0x3fff_5bc0_1a36_e2eb;

/// What the predictions of a report rest on.
pub open spec fn ground_of<M: Fn(Call) -> Real>(
    math: M,
    all: Seq<Specimen>,
    req: FitRequest,
    r: FitResult,
) -> Ground {
    let specs = chosen(all, req.criterion@, req.damage_model, all.len());
    let plan = plan_of(req, specs);
    Ground {
        plan,
        specs,
        u: found(math, plan, specs).0,
        cov: spread_of(math, plan, specs).0,
        tmin: r.envelope.min_temp_c,
        tmax: r.envelope.max_temp_c,
        smin: r.envelope.min_stress_mpa,
        smax: r.envelope.max_stress_mpa,
        cutoff: cutoff_of(plan, specs.len()),
        bound: notes_bound(r.params@),
    }
}

/// The temperature of the `i`-th target in kelvin.
pub open spec fn kelvin_of(req: FitRequest, i: int) -> Real {
    target_kelvin_of(req.targets@[i], i + 1)->Ok_0
}

/// What stands for the stress of the `i`-th target in the curve.
pub open spec fn abscissa_of<M: Fn(Call) -> Real>(math: M, req: FitRequest, i: int) -> Real {
    if req.model@ == "CX"@ {
        answer(math, Call::Log10(req.targets@[i].stress_mpa))
    } else {
        req.targets@[i].stress_mpa
    }
}

/// The parameters that a report gives.
pub open spec fn values_of(params: Seq<ParamReport>) -> Seq<Real> {
    params.map_values(|p: ParamReport| p.value)
}

/// Whether the `i`-th target is for the `k`-th heat of the report: it names it, and no
/// earlier one has the name, or names none and the heat is the first.
pub open spec fn is_for(req: FitRequest, r: FitResult, i: int, k: int) -> bool {
    &&& 0 <= k < r.envelope.heats@.len()
    &&& match req.targets@[i].heat {
        Some(h) => r.envelope.heats@[k]@ == h@ && forall|j: int|
            0 <= j < k ==> (#[trigger] r.envelope.heats@[j])@ != h@,
        None => k == 0,
    }
}

/// The mean log10 life at the `i`-th target by the parameters and the offset that the report
/// gives for the `k`-th heat.
pub open spec fn reported_life<M: Fn(Call) -> Real>(
    math: M,
    req: FitRequest,
    r: FitResult,
    i: int,
    k: int,
) -> Real {
    fadd(
        MasterModel::named(req.model@)->0.mean_of(
            values_of(r.params@),
            kelvin_of(req, i),
            abscissa_of(math, req, i),
        ),
        r.heat_offsets@[k].value,
    )
}

pub proof fn lemma_prediction<M: Fn(Call) -> Real, S: Fn(Print) -> String>(
    math: M,
    show: S,
    all: Seq<Specimen>,
    req: FitRequest,
    r: FitResult,
    i: int,
)
    requires
        result_is(math, show, all, req, r),
        0 <= i < req.targets@.len(),
    ensures
        prediction_is(
            math,
            show,
            ground_of(math, all, req, r),
            req,
            req.targets@[i],
            kelvin_of(req, i),
            r.predictions@[i],
        ),
        r.predictions@.len() == req.targets@.len(),
{
    let p = r.predictions@[i];
}

/// The life of a prediction is that of the report.
proof fn lemma_reported_life<M: Fn(Call) -> Real, S: Fn(Print) -> String>(
    math: M,
    show: S,
    all: Seq<Specimen>,
    req: FitRequest,
    r: FitResult,
    i: int,
    k: int,
)
    requires
        result_is(math, show, all, req, r),
        0 <= i < req.targets@.len(),
        is_for(req, r, i, k),
    ensures
        ({
            let g = ground_of(math, all, req, r);
            let heat = target_heat(req.targets@[i], g.plan);
            &&& g.plan.heat_place(heat) == k
            &&& g.plan.heats.contains(heat)
            &&& g.plan.life(math, g.u, k, kelvin_of(req, i), abscissa_of(math, req, i))
                == reported_life(math, req, r, i, k)
            &&& g.plan.x_of(math, req.targets@[i].stress_mpa) == abscissa_of(math, req, i)
        }),
{
    let g = ground_of(math, all, req, r);
    let heats = g.plan.heats;
    let heat = target_heat(req.targets@[i], g.plan);
    assert(views(r.envelope.heats@) == heats);
    assert(heats.len() == r.envelope.heats@.len());
    assert(heats[k] == r.envelope.heats@[k]@);
    assert(heats[k] == heat);
    lemma_index_in(heats, heat);
    assert forall|j: int| 0 <= j < k implies heats[j] != heat by {
        assert(heats[j] == r.envelope.heats@[j]@);
    }
    assert(offset_is(math, show, g.plan, g.u, g.cov, k, r.heat_offsets@[k]));
    assert(r.heat_offsets@[k].value == g.plan.offset(math, g.u, k));
    assert(values_of(r.params@) =~= g.plan.master(math, g.u));
}

/// A prediction follows from what the report says: the parameters of the curve, at the point
/// of the target, and the offset of its heat.
pub proof fn law_prediction_follows_report<M: Fn(Call) -> Real, S: Fn(Print) -> String>(
    math: M,
    show: S,
    all: Seq<Specimen>,
    req: FitRequest,
    r: FitResult,
    i: int,
    k: int,
)
    requires
        result_is(math, show, all, req, r),
        0 <= i < req.targets@.len(),
        is_for(req, r, i, k),
    ensures
        r.predictions@[i].median_h == rounded_at(
            answer(math, Call::Pow10(reported_life(math, req, r, i, k))),
            lit(HUNDRED),
        ),
{
    lemma_prediction(math, show, all, req, r, i);
    lemma_reported_life(math, show, all, req, r, i, k);
}

/// Of two targets at one point the heats alone set the predictions apart: the one of the
/// greater offset in the report is predicted to live as long or longer, and a heat whose
/// offset is that of the base lives as the base does.
pub proof fn law_offset_shifts_prediction<M: Fn(Call) -> Real, S: Fn(Print) -> String>(
    math: M,
    show: S,
    all: Seq<Specimen>,
    req: FitRequest,
    r: FitResult,
    i: int,
    j: int,
    k: int,
    l: int,
)
    requires
        is_faithful(math),
        result_is(math, show, all, req, r),
        0 <= i < req.targets@.len(),
        0 <= j < req.targets@.len(),
        is_for(req, r, i, k),
        is_for(req, r, j, l),
        kelvin_of(req, i) == kelvin_of(req, j),
        req.targets@[i].stress_mpa == req.targets@[j].stress_mpa,
        MasterModel::named(req.model@)->0.mean_of(
            values_of(r.params@),
            kelvin_of(req, i),
            abscissa_of(math, req, i),
        ).finite(),
        fle(r.heat_offsets@[k].value, r.heat_offsets@[l].value),
    ensures
        fle(r.predictions@[i].median_h, r.predictions@[j].median_h),
        r.heat_offsets@[k].value == r.heat_offsets@[l].value ==> r.predictions@[i].median_h
            == r.predictions@[j].median_h,
{
    law_prediction_follows_report(math, show, all, req, r, i, k);
    law_prediction_follows_report(math, show, all, req, r, j, l);
    let m = MasterModel::named(req.model@)->0.mean_of(
        values_of(r.params@),
        kelvin_of(req, i),
        abscissa_of(math, req, i),
    );
    let (a, b) = (r.heat_offsets@[k].value, r.heat_offsets@[l].value);
    law_sum_monotone(a, b, m);
    law_commutes(a, m);
    law_commutes(b, m);
    law_reports_keep_order(
        answer(math, Call::Pow10(fadd(m, a))),
        answer(math, Call::Pow10(fadd(m, b))),
        lit(HUNDRED),
    );
}

/// A prediction at the point of a specimen, for its own heat, is the life that the row of the
/// specimen gives.
pub proof fn law_prediction_matches_row<M: Fn(Call) -> Real, S: Fn(Print) -> String>(
    math: M,
    show: S,
    all: Seq<Specimen>,
    req: FitRequest,
    r: FitResult,
    i: int,
    n: int,
)
    requires
        result_is(math, show, all, req, r),
        0 <= i < req.targets@.len(),
        0 <= n < r.residuals@.len(),
        ({
            let s = chosen(all, req.criterion@, req.damage_model, all.len())[n];
            &&& req.targets@[i].heat matches Some(h) && h@ == s.heat@
            &&& kelvin_of(req, i) == s.segments@[0].temp_kelvin
            &&& req.targets@[i].stress_mpa == s.segments@[0].stress_mpa
        }),
    ensures
        r.predictions@[i].median_h == rounded_at(
            answer(math, Call::Pow10(r.residuals@[n].predicted_log10_h)),
            lit(HUNDRED),
        ),
{
    lemma_prediction(math, show, all, req, r, i);
    let g = ground_of(math, all, req, r);
    let s = g.specs[n];
    assert(row_is(math, show, g.plan, g.u, s, r.residuals@[n]));
    reveal(score_of);
}

/// The residual of a specimen that ruptured under a constant load is its log10 life less the
/// one predicted; the predicted one follows from the parameters and the offset that the report
/// gives.
pub proof fn law_residual_follows_report<M: Fn(Call) -> Real, S: Fn(Print) -> String>(
    math: M,
    show: S,
    all: Seq<Specimen>,
    req: FitRequest,
    r: FitResult,
    n: int,
)
    requires
        result_is(math, show, all, req, r),
        0 <= n < r.residuals@.len(),
        r.residuals@[n].heat_idx < r.heat_offsets@.len(),
    ensures
        ({
            let s = chosen(all, req.criterion@, req.damage_model, all.len())[n];
            let row = r.residuals@[n];
            let g = s.segments@[0];
            let x = if req.model@ == "CX"@ {
                answer(math, Call::Log10(g.stress_mpa))
            } else {
                g.stress_mpa
            };
            &&& row.specimen_id@ == s.specimen_id@
            &&& row.predicted_log10_h == fadd(
                MasterModel::named(req.model@)->0.mean_of(
                    values_of(r.params@),
                    g.temp_kelvin,
                    x,
                ),
                r.heat_offsets@[row.heat_idx as int].value,
            )
            &&& row.residual matches Some(e) ==> e == fsub(
                answer(math, Call::Log10(s.time_h)),
                row.predicted_log10_h,
            )
            &&& !s.variable ==> (row.std_residual matches Some(z) ==> z == fdiv(
                fsub(answer(math, Call::Log10(s.time_h)), row.predicted_log10_h),
                r.tau_log10h,
            ))
        }),
{
    let g = ground_of(math, all, req, r);
    let row = r.residuals@[n];
    assert(row_is(math, show, g.plan, g.u, g.specs[n], row));
    let k = row.heat_idx as int;
    assert(offset_is(math, show, g.plan, g.u, g.cov, k, r.heat_offsets@[k]));
    assert(values_of(r.params@) =~= g.plan.master(math, g.u));
    reveal(score_of);
}

/// What the variance of a prediction adds up to.
proof fn lemma_variance_parts(a: Real, b: Real, c: Real, d: Real)
    requires
        fle(lit(ZERO), a),
        fle(lit(ZERO), b),
        fle(lit(ZERO), c),
        fle(c, d),
    ensures
        fle(a, fadd(fadd(a, b), c)),
        fle(fadd(fadd(a, b), c), fadd(fadd(a, b), d)),
        fle(lit(ZERO), fadd(fadd(a, b), c)),
{
    law_sums_ordered(a, a, b, b);
    law_sums_ordered(fadd(a, b), fadd(a, b), c, d);
    law_sum_grows(a, b);
    law_sum_grows(fadd(a, b), c);
}

/// A wider reach takes the ends of an interval further out, also as they are reported.
proof fn lemma_wider<M: Fn(Call) -> Real>(math: M, mu: Real, near: Real, far: Real)
    requires
        is_faithful(math),
        mu.finite(),
        fle(lit(ZERO), near),
        fle(near, far),
    ensures
        fle(
            rounded_at(answer(math, Call::Pow10(fsub(mu, far))), lit(HUNDRED)),
            rounded_at(answer(math, Call::Pow10(fsub(mu, near))), lit(HUNDRED)),
        ),
        fle(
            rounded_at(answer(math, Call::Pow10(fadd(mu, near))), lit(HUNDRED)),
            rounded_at(answer(math, Call::Pow10(fadd(mu, far))), lit(HUNDRED)),
        ),
{
    law_difference_antitone(near, far, mu);
    law_sum_monotone(near, far, mu);
    law_commutes(near, mu);
    law_commutes(far, mu);
    law_reports_keep_order(
        answer(math, Call::Pow10(fsub(mu, far))),
        answer(math, Call::Pow10(fsub(mu, near))),
        lit(HUNDRED),
    );
    law_reports_keep_order(
        answer(math, Call::Pow10(fadd(mu, near))),
        answer(math, Call::Pow10(fadd(mu, far))),
        lit(HUNDRED),
    );
}

/// The interval of a prediction reaches at least 1.9599 spreads to either side of its median
/// in logarithms: the scatter of the lives is always in it.
pub proof fn law_interval_covers_spread<M: Fn(Call) -> Real, S: Fn(Print) -> String>(
    math: M,
    show: S,
    all: Seq<Specimen>,
    req: FitRequest,
    r: FitResult,
    i: int,
    k: int,
)
    requires
        is_faithful(math),
        takes_roots(math),
        result_is(math, show, all, req, r),
        0 <= i < req.targets@.len(),
        is_for(req, r, i, k),
        reported_life(math, req, r, i, k).finite(),
        of_ordinary_size(r.tau_log10h),
    ensures
        ({
            let mu = reported_life(math, req, r, i, k);
            let reach = fmul(lit(QUANTILE), r.tau_log10h);
            &&& fle(
                r.predictions@[i].pi_low_h,
                rounded_at(answer(math, Call::Pow10(fsub(mu, reach))), lit(HUNDRED)),
            )
            &&& fle(
                rounded_at(answer(math, Call::Pow10(fadd(mu, reach))), lit(HUNDRED)),
                r.predictions@[i].pi_high_h,
            )
        }),
{
    lemma_prediction(math, show, all, req, r, i);
    lemma_reported_life(math, show, all, req, r, i, k);
    let g = ground_of(math, all, req, r);
    let plan = g.plan;
    let tk = kelvin_of(req, i);
    let x = abscissa_of(math, req, i);
    let tau = plan.tau(math, g.u);
    let var = form_of(g.cov, grad_u_of(math, plan, tk, x, k, g.u), true);
    let own = fmul(tau, tau);
    lemma_square_of_size(tau);
    lemma_variance_parts(own, var, lit(ZERO), lit(ZERO));
    let total = fadd(fadd(own, var), lit(ZERO));
    let all_in = fmax(total, lit(LEAST_VARIANCE));
    assert(fle(own, all_in));
    let sd = answer(math, Call::Sqrt(all_in));
    assert(fle(answer(math, Call::Sqrt(own)), sd));
    law_product_monotone(tau, tau, lit(QUANTILE));
    law_commutes(tau, lit(QUANTILE));
    law_product_monotone(tau, sd, lit(Z95));
    law_commutes(tau, lit(Z95));
    law_commutes(sd, lit(Z95));
    law_products_ordered(lit(QUANTILE), lit(Z95), tau, tau);
    lemma_wider(math, reported_life(math, req, r, i, k), fmul(lit(QUANTILE), tau), fmul(lit(Z95), sd));
}

proof fn lemma_squares_not_negative(offs: Seq<Real>, k: nat)
    requires
        k < offs.len(),
        forall|i: int| 0 <= i < offs.len() ==> !(#[trigger] offs[i]).nan(),
    ensures
        fle(lit(ZERO), fsum(offset_squares(offs), k)),
    decreases k,
{
    if k > 0 {
        lemma_squares_not_negative(offs, (k - 1) as nat);
        let o = offs[k as int];
        lemma_square_of_size(o);
        assert(offset_squares(offs)[k - 1] == fmul(o, o));
        let s = fsum(offset_squares(offs), (k - 1) as nat);
        law_sums_ordered(s, s, fmul(o, o), fmul(o, o));
    }
}

proof fn lemma_count_positive(n: int)
    requires
        1 <= n <= usize::MAX,
    ensures
        flt(lit(ZERO), fint(n)),
        fint(n).finite(),
{
    let q = one_quanta();
    let wide = 0x43f0_0000_0000_0000;
    lemma_one();
    lemma_pow2_pos(ONE_EXPONENT as nat);
    law_power_of_two(wide, 64);
    lemma2_to64();
    lemma_pow2_adds(64, ONE_EXPONENT as nat);
    assert(q <= n * q && n * q <= 0x1_0000_0000_0000_0000 * q) by (nonlinear_arith)
        requires
            1 <= n <= 0x1_0000_0000_0000_0000,
            0 < q,
    ;
    law_nearest_exists(n * q, 1);
    law_rounding_monotone(q, n * q, 1);
    law_rounding_monotone(n * q, mag(wide), 1);
    law_rounding_exact(ONE as int);
    law_rounding_exact(wide);
}

/// A heat that is not in the report is predicted as the base is, with an interval no narrower
/// on either side: that its offset is not known never makes a prediction surer.
pub proof fn law_unknown_heat_widens<M: Fn(Call) -> Real, S: Fn(Print) -> String>(
    math: M,
    show: S,
    all: Seq<Specimen>,
    req: FitRequest,
    r: FitResult,
    i: int,
    j: int,
)
    requires
        is_faithful(math),
        takes_roots(math),
        result_is(math, show, all, req, r),
        0 <= i < req.targets@.len(),
        0 <= j < req.targets@.len(),
        is_for(req, r, i, 0),
        req.targets@[j].heat matches Some(h) && forall|k: int|
            0 <= k < r.envelope.heats@.len() ==> (#[trigger] r.envelope.heats@[k])@ != h@,
        kelvin_of(req, i) == kelvin_of(req, j),
        req.targets@[i].stress_mpa == req.targets@[j].stress_mpa,
        reported_life(math, req, r, i, 0).finite(),
        !r.tau_log10h.nan(),
        r.heat_offsets@.len() <= usize::MAX,
        forall|k: int|
            0 <= k < r.heat_offsets@.len() ==> !(#[trigger] r.heat_offsets@[k]).value.nan(),
    ensures
        r.predictions@[i].median_h == r.predictions@[j].median_h,
        fle(r.predictions@[j].pi_low_h, r.predictions@[i].pi_low_h),
        fle(r.predictions@[i].pi_high_h, r.predictions@[j].pi_high_h),
        r.predictions@[j].boundary_active@.len() > 0,
{
    lemma_prediction(math, show, all, req, r, i);
    lemma_prediction(math, show, all, req, r, j);
    lemma_reported_life(math, show, all, req, r, i, 0);
    let g = ground_of(math, all, req, r);
    let plan = g.plan;
    let heat = target_heat(req.targets@[j], plan);
    assert(views(r.envelope.heats@) == plan.heats);
    assert(!plan.heats.contains(heat)) by {
        if plan.heats.contains(heat) {
            let k = choose|k: int| 0 <= k < plan.heats.len() && plan.heats[k] == heat;
            assert(plan.heats[k] == r.envelope.heats@[k]@);
        }
    }
    lemma_index_in(plan.heats, heat);
    let tk = kelvin_of(req, i);
    let x = abscissa_of(math, req, i);
    let tau = plan.tau(math, g.u);
    let var = form_of(g.cov, grad_u_of(math, plan, tk, x, 0, g.u), true);
    let offs = plan.offsets(math, g.u);
    assert forall|k: int| 0 <= k < offs.len() implies !(#[trigger] offs[k]).nan() by {
        assert(offset_is(math, show, plan, g.u, g.cov, k, r.heat_offsets@[k]));
        assert(!r.heat_offsets@[k].value.nan());
    }
    let n = (offs.len() - 1) as nat;
    lemma_squares_not_negative(offs, n);
    lemma_count_positive(if n == 0 { 1 } else { n as int });
    let vh = heat_variance(offs);
    law_quotient_monotone(
        fsum(offset_squares(offs), n),
        fsum(offset_squares(offs), n),
        fint(if n == 0 { 1 } else { n as int }),
    );
    let own = fmul(tau, tau);
    lemma_square_of_size(tau);
    lemma_variance_parts(own, var, lit(ZERO), vh);
    let a = fmax(fadd(fadd(own, var), lit(ZERO)), lit(LEAST_VARIANCE));
    let b = fmax(fadd(fadd(own, var), vh), lit(LEAST_VARIANCE));
    assert(fle(a, b));
    let (s, t) = (answer(math, Call::Sqrt(a)), answer(math, Call::Sqrt(b)));
    assert(fle(s, t));
    law_product_monotone(s, t, lit(Z95));
    law_commutes(s, lit(Z95));
    law_commutes(t, lit(Z95));
    lemma_wider(math, reported_life(math, req, r, i, 0), fmul(lit(Z95), s), fmul(lit(Z95), t));
    let text = "炉次 "@ + heat + " 未在训练数据中（按热效应均值+方差处理）"@;
    assert(given_if(true, text).len() == 1);
    assert(views(r.predictions@[j].boundary_active@).len() > 0);
}

/// 1.96
pub const QUANTILE_ABOVE: u64 = 0x3fff_5c28_f5c2_8f5c;

/// The variance of the mean at the `i`-th target for the `k`-th heat that the covariance of the
/// searched values gives, to first order.
pub open spec fn curve_variance<M: Fn(Call) -> Real>(
    math: M,
    all: Seq<Specimen>,
    req: FitRequest,
    r: FitResult,
    i: int,
    k: int,
) -> Real {
    let g = ground_of(math, all, req, r);
    form_of(
        g.cov,
        grad_u_of(math, g.plan, kelvin_of(req, i), abscissa_of(math, req, i), k, g.u),
        true,
    )
}

/// What is not known of the curve widens an interval: it reaches at least 1.9599 times any
/// number whose square the variance of the mean holds; and no interval is wider than what the
/// scatter and that variance make together, times 1.96.
pub proof fn law_interval_covers_uncertainty<M: Fn(Call) -> Real, S: Fn(Print) -> String>(
    math: M,
    show: S,
    all: Seq<Specimen>,
    req: FitRequest,
    r: FitResult,
    i: int,
    k: int,
    v: Real,
    w: Real,
)
    requires
        is_faithful(math),
        takes_roots(math),
        result_is(math, show, all, req, r),
        0 <= i < req.targets@.len(),
        is_for(req, r, i, k),
        reported_life(math, req, r, i, k).finite(),
        !r.tau_log10h.nan(),
        of_ordinary_size(v),
        of_ordinary_size(w),
    ensures
        ({
            let p = r.predictions@[i];
            let mu = reported_life(math, req, r, i, k);
            let var = curve_variance(math, all, req, r, i, k);
            let (near, far) = (fmul(lit(QUANTILE), v), fmul(lit(QUANTILE_ABOVE), w));
            let scatter = fmul(r.tau_log10h, r.tau_log10h);
            &&& fle(fmul(v, v), var) ==> {
                &&& fle(
                    p.pi_low_h,
                    rounded_at(answer(math, Call::Pow10(fsub(mu, near))), lit(HUNDRED)),
                )
                &&& fle(
                    rounded_at(answer(math, Call::Pow10(fadd(mu, near))), lit(HUNDRED)),
                    p.pi_high_h,
                )
            }
            &&& fle(fadd(scatter, var), fmul(w, w)) && fle(lit(LEAST_VARIANCE), fmul(w, w)) ==> {
                &&& fle(
                    rounded_at(answer(math, Call::Pow10(fsub(mu, far))), lit(HUNDRED)),
                    p.pi_low_h,
                )
                &&& fle(
                    p.pi_high_h,
                    rounded_at(answer(math, Call::Pow10(fadd(mu, far))), lit(HUNDRED)),
                )
            }
        }),
{
    lemma_prediction(math, show, all, req, r, i);
    lemma_reported_life(math, show, all, req, r, i, k);
    let mu = reported_life(math, req, r, i, k);
    let tau = r.tau_log10h;
    let var = curve_variance(math, all, req, r, i, k);
    let own = fmul(tau, tau);
    lemma_square_of_size(tau);
    lemma_variance_parts(own, var, lit(ZERO), lit(ZERO));
    lemma_variance_parts(var, own, lit(ZERO), lit(ZERO));
    law_commutes(own, var);
    let sum = fadd(own, var);
    law_sums_ordered(own, own, var, var);
    assert(!sum.nan());
    if !(sum.zero() && sum.neg()) {
        law_zero_added(sum);
    }
    let total = fadd(sum, lit(ZERO));
    assert(mag(0) == 0);
    assert(feq(total, sum));
    let all_in = fmax(total, lit(LEAST_VARIANCE));
    let sd = answer(math, Call::Sqrt(all_in));
    let (a, b) = (fmul(v, v), fmul(w, w));
    lemma_square_of_size(v);
    lemma_square_of_size(w);
    assert(answer(math, Call::Sqrt(a)) == v);
    assert(answer(math, Call::Sqrt(b)) == w);
    assert(fle(lit(ZERO), all_in));
    assert(fle(answer(math, Call::Sqrt(all_in)), answer(math, Call::Sqrt(all_in))));
    law_product_monotone(sd, sd, lit(Z95));
    law_commutes(sd, lit(Z95));
    if fle(a, var) {
        assert(fle(a, all_in));
        assert(fle(v, sd));
        law_product_monotone(v, sd, lit(Z95));
        law_commutes(v, lit(Z95));
        law_products_ordered(lit(QUANTILE), lit(Z95), v, v);
        lemma_wider(math, mu, fmul(lit(QUANTILE), v), fmul(lit(Z95), sd));
    }
    if fle(sum, b) && fle(lit(LEAST_VARIANCE), b) {
        assert(fle(all_in, b));
        assert(fle(sd, w));
        law_product_monotone(sd, w, lit(Z95));
        law_commutes(w, lit(Z95));
        law_products_ordered(lit(Z95), lit(QUANTILE_ABOVE), w, w);
        lemma_wider(math, mu, fmul(lit(Z95), sd), fmul(lit(QUANTILE_ABOVE), w));
    }
}

/// The variance of a heat that is not known is the mean of the squares of the offsets but the
/// first: with one it is its square, with two of one size their square; it is nothing where
/// there are none.
pub proof fn law_heat_variance_is_mean_square(offs: Seq<Real>, b: Real)
    requires
        1 <= offs.len() <= 3,
        !b.nan(),
        fmul(b, b).finite(),
        fmul(b, b).size() >= 2 * BINADE,
        fmul(b, b).size() + BINADE < INF,
        forall|i: int| 1 <= i < offs.len() ==> fabs(#[trigger] offs[i]) == fabs(b),
    ensures
        offs.len() == 1 ==> heat_variance(offs).zero(),
        offs.len() > 1 ==> heat_variance(offs) == fmul(b, b),
{
    let n = (offs.len() - 1) as nat;
    let sq = offset_squares(offs);
    let x = fmul(b, b);
    lemma_square_of_size(b);
    law_zero_added(x);
    reveal_with_fuel(fsum, 3);
    lemma_one();
    lemma_pow2_pos(ONE_EXPONENT as nat);
    let q = one_quanta();
    law_rounding_exact(ONE as int);
    assert(1 * q == q);
    assert(fint(1) == lit(ONE));
    if n == 0 {
        assert(mag(0) == 0);
        lemma_size_of_share(lit(ZERO), lit(ONE));
    } else {
        assert(fabs(offs[1]) == fabs(b));
        lemma_square_of_size(offs[1]);
        assert(sq[0] == x);
        if n == 1 {
            assert(fsum(sq, 1) == x);
            lemma_over_one(x);
        } else {
            assert(fabs(offs[2]) == fabs(b));
            lemma_square_of_size(offs[2]);
            assert(sq[1] == x);
            let y = signed(false, x.size() + BINADE);
            lemma_double(x.size());
            lemma_mag_monotone(0, x.size());
            assert(mag(0) == 0);
            law_sum_exact(x, x, y);
            assert(fsum(sq, 2) == y);
            lemma_double(ONE as int);
            law_rounding_exact(TWO as int);
            assert(fint(2) == lit(TWO));
            lemma_half_back(y, x);
        }
    }
}

proof fn lemma_half_back(y: Real, x: Real)
    requires
        x.finite() && !x.neg(),
        y.finite() && !y.neg(),
        mag(y.size()) == 2 * mag(x.size()),
    ensures
        fdiv(y, lit(TWO)) == x,
{
    lemma_one();
    lemma_double(ONE as int);
    let q = one_quanta();
    lemma_pow2_pos(ONE_EXPONENT as nat);
    let m = mag(x.size());
    assert(mag(0) == 0);
    if x.size() > 0 {
        lemma_mag_monotone(0, x.size());
    }
    assert((2 * m) * q == m * (2 * q)) by (nonlinear_arith);
    law_rounding_scaled(m, 1, 2 * q);
    law_rounding_exact(x.size());
    assert(1 * (2 * q) == 2 * q);
}

/// The derivatives of a life by the searched values are nothing for the offsets of other heats
/// and for the spread: neither bears on the life of the heat.
pub proof fn law_gradient_ignores_others<M: Fn(Call) -> Real>(
    math: M,
    plan: Plan,
    tk: Real,
    x: Real,
    hi: int,
    u: Seq<Real>,
    i: int,
)
    requires
        plan.heats.len() > 0,
        u.len() == plan.dimensions(),
        0 <= hi < plan.heats.len(),
        4 <= i < u.len(),
        hi > 0 ==> i != 4 + hi - 1,
        plan.life(math, u, hi, tk, x).finite(),
    ensures
        grad_u_of(math, plan, tk, x, hi, u)[i].zero(),
{
    let h = lit(DERIVATIVE_STEP);
    let (a, b) = (bumped(u, i, h), dipped(u, i, h));
    assert(plan.master(math, a) =~= plan.master(math, u));
    assert(plan.master(math, b) =~= plan.master(math, u));
    assert(plan.offset(math, a, hi) == plan.offset(math, u, hi));
    assert(plan.offset(math, b, hi) == plan.offset(math, u, hi));
    let l = plan.life(math, u, hi, tk, x);
    law_nothing_left(l);
    let d = fmul(lit(TWO), h);
    lemma_step_doubled();
    lemma_size_of_share(fsub(l, l), d);
}

proof fn lemma_step_doubled()
    ensures
        flt(lit(ZERO), fmul(lit(TWO), lit(DERIVATIVE_STEP))),
        fmul(lit(TWO), lit(DERIVATIVE_STEP)).finite(),
{
    let h = lit(DERIVATIVE_STEP);
    law_products_ordered(lit(ONE), lit(TWO), h, h);
    law_unit_factors(h);
    law_commutes(lit(ONE), h);
    law_products_ordered(lit(TWO), lit(TWO), h, lit(ONE));
    law_unit_factors(lit(TWO));
}

/// The derivative of a life by a searched value, times twice the step, is the difference of the
/// lives a step above and a step below, but for roundings.
pub proof fn law_slope_times_way<M: Fn(Call) -> Real>(
    math: M,
    plan: Plan,
    tk: Real,
    x: Real,
    hi: int,
    u: Seq<Real>,
    i: int,
)
    requires
        0 <= i < u.len(),
        ({
            let h = lit(DERIVATIVE_STEP);
            let up = plan.life(math, u.update(i, fadd(u[i], h)), hi, tk, x);
            let down = plan.life(math, u.update(i, fsub(u[i], h)), hi, tk, x);
            up.finite() && down.finite() && fsub(up, down).finite()
        }),
        grad_u_of(math, plan, tk, x, hi, u)[i].finite(),
    ensures
        ({
            let h = lit(DERIVATIVE_STEP);
            let up = plan.life(math, u.update(i, fadd(u[i], h)), hi, tk, x);
            let down = plan.life(math, u.update(i, fsub(u[i], h)), hi, tk, x);
            let slope = grad_u_of(math, plan, tk, x, hi, u)[i].value();
            let way = 2 * h.value();
            let rise = up.value() - down.value();
            size_of(slope * way - rise * one_quanta()) * (2 * BINADE) <= (size_of(
                fsub(up, down).value(),
            ) + size_of(rise)) * one_quanta() + way * (2 * BINADE)
        }),
{
    let h = lit(DERIVATIVE_STEP);
    assert(bumped(u, i, h) =~= u.update(i, fadd(u[i], h)));
    assert(dipped(u, i, h) =~= u.update(i, fsub(u[i], h)));
    law_central_difference(
        plan.life(math, bumped(u, i, h), hi, tk, x),
        plan.life(math, dipped(u, i, h), hi, tk, x),
        h,
    );
}

} // verus!
