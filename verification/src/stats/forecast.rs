//! What the predictions of a fit follow from, and how they are judged.
use vstd::prelude::*;
use crate::fit::criterion::{lemma_count_doubled, lemma_room, lemma_twice_both};
use crate::fit::verdict::{is_span, over_by, under_by};
use crate::host::{answer, is_faithful, of_ordinary_size, spans_legs, takes_roots, Call, Print};
use crate::models::{n_base, physical_of, ModelKind};
use crate::normal::{erf_of, erfc_of, law_erf_within, law_survival_error, survival_of, SQRT_2};
use crate::normal::rise::{grain, law_survival_nearly_falls, lemma_grain, lemma_sum_off};
use crate::number::{feq, fle, flt, fmax, fneg, lit, mag, Real, BINADE};
use crate::number::arith::{fadd, fdiv, fmul, fsub, ONE_EXPONENT};
use crate::number::consts::{FOUR, MINUS_ONE, ONE, TWO, ZERO};
use crate::number::convert::{fint, one_quanta};
use crate::number::error::size_of;
use crate::number::order::{law_commutes, law_difference_antitone, law_division_monotone,
    law_negation, law_product_monotone, law_quotient_monotone, law_rounding_exact,
    law_rounding_scaled, law_scaling_monotone, law_signs, law_sum_grows, law_sum_is_number,
    law_sum_monotone, law_sum_passes, law_sums_ordered, law_zero_added, lemma_double, lemma_one,
    lemma_ranks_values};
use crate::number::rounding::lemma_mag_monotone;
use crate::number::shape::{law_difference_is_felt, law_difference_not_negative, law_nothing_left,
    law_sum_bounded, lemma_size_of_share, lemma_square_of_size};
use crate::simplex::rows;
use crate::stats::{Envelope, FitConfig, FitOutput, ObsKind, ParamOut, PredictionOut};
use crate::stats::engine::{fitted, found, offset_of, params_are, residual_is};
use crate::stats::likelihood::spreads_of;
use crate::stats::predict::{excess_of, free_place, gradient_of, law_predicted_bias, predicted,
    variance_of, EDGE};
use crate::stats::workspace::{dimensions, eval_of, hottest, per_obs, LEAST_SPREAD};
use crate::text::{given_if, lemma_index_in, views};
use vstd::arithmetic::power2::lemma_pow2_pos;

verus! {

/// What a prediction is asked for.
pub struct Ask {
    pub env: Envelope,
    pub kind: ModelKind,
    pub temp_k: Real,
    pub stress: Real,
    pub allow_temp_k: (Real, Real),
    pub allow_stress: (Real, Real),
    pub heat: Option<Seq<char>>,
    pub pi_z: Real,
}

/// Whether `r` answers what is asked.
pub open spec fn answers<M: Fn(Call) -> Real>(
    math: M,
    fo: FitOutput,
    q: Ask,
    r: PredictionOut,
) -> bool {
    predicted(
        math,
        fo,
        q.env,
        q.kind,
        q.temp_k,
        q.stress,
        q.allow_temp_k,
        q.allow_stress,
        q.heat,
        q.pi_z,
        r,
    )
}

/// The residual of a sample that fractured under a constant load is its log10 life less the
/// one fitted, and what every sample adds to the likelihood is reported as it was counted.
pub proof fn law_residuals_of_fit<M: Fn(Call) -> Real, S: Fn(Print) -> String>(
    math: M,
    show: S,
    cfg: FitConfig,
    fo: FitOutput,
    i: int,
)
    requires
        fitted(math, show, cfg, fo),
        0 <= i < fo.result.residuals@.len(),
    ensures
        ({
            let o = cfg.observations@[i];
            let row = fo.result.residuals@[i];
            &&& row.sample_id@ == o.sample_id@
            &&& row.nll_contribution == eval_of(math, cfg, fo.raw@).1[i].nll
            &&& row.residual_dex matches Some(e) ==> e == fsub(o.y_time, row.fitted_log10)
            &&& row.obs@ == "censored"@ <==> o.kind == ObsKind::Censored
        }),
{
    let x = found(math, cfg).0;
    let row = eval_of(math, cfg, x).1[i];
    assert(residual_is(
        math,
        cfg,
        physical_of(math, cfg.kind, x, hottest(cfg.observations@)),
        x,
        cfg.observations@[i],
        row,
        fo.result.residuals@[i],
    ));
    assert(row == per_obs(math, cfg, x, i));
    reveal_strlit("exact");
    reveal_strlit("censored");
    assert("exact"@.len() == 5);
    assert("censored"@.len() == 8);
}

/// A prediction at the point of a sample of constant load, for its own heat, has the mean that
/// the row of the sample gives.
pub proof fn law_prediction_matches_row<M: Fn(Call) -> Real, S: Fn(Print) -> String>(
    math: M,
    show: S,
    cfg: FitConfig,
    fo: FitOutput,
    i: int,
    q: Ask,
    r: PredictionOut,
)
    requires
        fitted(math, show, cfg, fo),
        0 <= i < fo.result.residuals@.len(),
        !cfg.observations@[i].variable,
        views(cfg.heats@).contains(cfg.observations@[i].heat@),
        answers(math, fo, q, r),
        q.kind == cfg.kind,
        q.temp_k == cfg.observations@[i].temp_k,
        q.stress == cfg.observations@[i].stress,
        q.heat == Some(cfg.observations@[i].heat@),
    ensures
        r.mean_log10_h == fo.result.residuals@[i].fitted_log10,
        r.median_h == answer(math, Call::Pow10(fo.result.residuals@[i].fitted_log10)),
{
    let o = cfg.observations@[i];
    let x = found(math, cfg).0;
    assert(residual_is(
        math,
        cfg,
        physical_of(math, cfg.kind, x, hottest(cfg.observations@)),
        x,
        o,
        eval_of(math, cfg, x).1[i],
        fo.result.residuals@[i],
    ));
    law_predicted_bias(math, show, cfg, fo, o.heat@);
    lemma_index_in(views(cfg.heats@), o.heat@);
}

/// The criteria of a fit are twice its minimum plus the cost of its parameters: twice their
/// number, within 2^-22, or their number times the logarithm of that of the samples; of two
/// fits alike in both numbers the one of the lower minimum has neither criterion greater.
pub proof fn law_criteria_follow_minimum<M: Fn(Call) -> Real, S: Fn(Print) -> String>(
    math: M,
    show: S,
    cfg: FitConfig,
    fo: FitOutput,
    other: FitConfig,
    go: FitOutput,
)
    requires
        fitted(math, show, cfg, fo),
        fitted(math, show, other, go),
        dimensions(cfg) == dimensions(other),
        dimensions(cfg) <= 0x10_0000,
        cfg.observations@.len() == other.observations@.len(),
        fmul(
            fint(dimensions(cfg) as int),
            answer(math, Call::Ln(fint(cfg.observations@.len() as int))),
        ).finite(),
        fo.result.nll.finite() && go.result.nll.finite(),
        size_of(fo.result.nll.value()) <= 0x1000_0000 * one_quanta(),
        fle(fo.result.nll, go.result.nll),
    ensures
        fo.result.log_likelihood == fneg(fo.result.nll),
        fle(fo.result.aic, go.result.aic),
        fle(fo.result.bic, go.result.bic),
        0x40_0000 * size_of(
            fo.result.aic.value() - (2 * fo.result.nll.value() + 2 * (dimensions(cfg)
                * one_quanta())),
        ) <= one_quanta(),
{
    let (f, g) = (fo.result.nll, go.result.nll);
    let k = dimensions(cfg) as int;
    let two = lit(TWO);
    lemma_room();
    lemma_twice_both(f, k);
    law_scaling_monotone(f, g, two);
    law_commutes(f, two);
    law_commutes(g, two);
    lemma_count_doubled(k);
    law_sum_monotone(fmul(two, f), fmul(two, g), fmul(two, fint(k)));
    let c = fmul(fint(k), answer(math, Call::Ln(fint(cfg.observations@.len() as int))));
    law_sum_monotone(fmul(two, f), fmul(two, g), c);
}

// ---- the distance ----

/// Whether the envelope and the point can be measured.
pub open spec fn is_measured(q: Ask) -> bool {
    &&& is_span(q.env.temp_min_k, q.env.temp_max_k)
    &&& is_span(q.env.stress_min_mpa, q.env.stress_max_mpa)
    &&& q.temp_k.finite() && q.stress.finite()
}

proof fn lemma_excess(x: Real, low: Real, high: Real)
    requires
        is_span(low, high),
        x.finite(),
    ensures
        fle(lit(ZERO), excess_of(x, low, high)),
        flt(high, x) ==> excess_of(x, low, high) == over_by(x, low, high),
        flt(x, low) ==> excess_of(x, low, high) == under_by(x, low, high),
        fle(low, x) && fle(x, high) ==> excess_of(x, low, high).zero(),
{
    let zero = lit(ZERO);
    let (a, b) = (fsub(low, x), fsub(x, high));
    law_sum_is_number(low, fneg(x));
    law_sum_is_number(x, fneg(high));
    law_difference_not_negative(low, high);
    let span = fmax(fsub(high, low), lit(ONE));
    assert(mag(0) == 0);
    if flt(high, x) {
        law_difference_is_felt(high, x);
        law_difference_is_felt(low, x);
        lemma_turned(low, x);
        assert(fmax(a, zero) == zero);
        assert(fmax(b, zero) == b);
        law_zero_added(b);
        law_quotient_monotone(b, b, span);
    } else if flt(x, low) {
        law_difference_is_felt(x, low);
        law_difference_is_felt(x, high);
        lemma_turned(x, high);
        assert(fmax(b, zero) == zero);
        assert(fmax(a, zero) == a);
        law_zero_added(a);
        law_quotient_monotone(a, a, span);
    } else {
        lemma_turned(low, x);
        lemma_turned(x, high);
        assert(fle(a, zero) && fle(b, zero));
        let s = fadd(fmax(a, zero), fmax(b, zero));
        assert(s.zero());
        lemma_size_of_share(s, span);
        law_quotient_monotone(s, s, span);
    }
}

/// A lesser number less a greater is not positive.
proof fn lemma_turned(a: Real, b: Real)
    requires
        fle(a, b),
        a.finite(),
        b.finite(),
    ensures
        fle(fsub(a, b), lit(ZERO)),
        flt(a, b) ==> flt(fsub(a, b), lit(ZERO)),
{
    law_sum_monotone(a, b, fneg(b));
    law_nothing_left(b);
    if flt(a, b) {
        law_difference_is_felt(a, b);
        law_signs(b, fneg(a));
        law_commutes(fneg(b), a);
        law_negation(a, b);
    }
}

/// Whether `a` is a share by which the point lies outside the envelope.
pub open spec fn is_share(q: Ask, a: Real) -> bool {
    let e = q.env;
    ||| flt(e.temp_max_k, q.temp_k) && a == over_by(q.temp_k, e.temp_min_k, e.temp_max_k)
    ||| flt(q.temp_k, e.temp_min_k) && a == under_by(q.temp_k, e.temp_min_k, e.temp_max_k)
    ||| flt(e.stress_max_mpa, q.stress) && a == over_by(
        q.stress,
        e.stress_min_mpa,
        e.stress_max_mpa,
    )
    ||| flt(q.stress, e.stress_min_mpa) && a == under_by(
        q.stress,
        e.stress_min_mpa,
        e.stress_max_mpa,
    )
}

/// A point is never nearer than it lies in temperature or in stress: the distance is no less
/// than either share, is the share where the other is nothing, and is nothing inside; beyond
/// two fifths of a range the risk is high, and only a point on the envelope or within interpolates.
pub proof fn law_distance_counts_both<M: Fn(Call) -> Real>(
    math: M,
    fo: FitOutput,
    q: Ask,
    r: PredictionOut,
    a: Real,
)
    requires
        spans_legs(math),
        answers(math, fo, q, r),
        is_measured(q),
    ensures
        ({
            let e = q.env;
            let t_in = fle(e.temp_min_k, q.temp_k) && fle(q.temp_k, e.temp_max_k);
            let s_in = fle(e.stress_min_mpa, q.stress) && fle(q.stress, e.stress_max_mpa);
            let high = lit(0x3fd9_9999_9999_999a);
            &&& is_share(q, a) ==> fle(a, r.normalized_distance)
            &&& (t_in || s_in) && is_share(q, a) ==> feq(r.normalized_distance, a)
            &&& t_in && s_in ==> r.normalized_distance.zero() && r.inside_envelope && (
            !r.outside_allowed ==> r.risk@ == "interpolated"@)
            &&& is_share(q, a) && flt(high, a) && !r.outside_allowed ==> r.risk@ == "high"@
            &&& is_share(q, a) && flt(lit(0x3e11_2e0b_e826_d695), a) ==> !r.inside_envelope
        }),
{
    let e = q.env;
    lemma_excess(q.temp_k, e.temp_min_k, e.temp_max_k);
    lemma_excess(q.stress, e.stress_min_mpa, e.stress_max_mpa);
    let x = excess_of(q.temp_k, e.temp_min_k, e.temp_max_k);
    let y = excess_of(q.stress, e.stress_min_mpa, e.stress_max_mpa);
    let d = answer(math, Call::Hypot(x, y));
    assert(r.normalized_distance == d);
    assert(fle(x, d) && fle(y, d));
    if y.zero() {
        assert(feq(d, x));
    }
    if x.zero() {
        assert(feq(d, y));
    }
}

// ---- the interval ----

/// The variance of the mean at a point that the covariance of the searched values gives.
pub open spec fn mean_variance<M: Fn(Call) -> Real>(math: M, fo: FitOutput, q: Ask) -> Real {
    let place = free_place(fo.result.internal.heat_index@, q.heat);
    variance_of(rows(fo.cov@), gradient_of(math, q.kind, fo, q.temp_k, q.stress, place))
}

/// The interval of a prediction holds the scatter of the lives and what is not known of the
/// curve: it reaches at least the given quantile times any number whose square either holds,
/// and at most that times any whose square holds both.
pub proof fn law_interval_covers_both<M: Fn(Call) -> Real>(
    math: M,
    fo: FitOutput,
    q: Ask,
    r: PredictionOut,
    v: Real,
    w: Real,
)
    requires
        is_faithful(math),
        takes_roots(math),
        answers(math, fo, q, r),
        flt(lit(ZERO), q.pi_z),
        q.pi_z.finite(),
        r.mean_log10_h.finite(),
        fle(lit(ZERO), mean_variance(math, fo, q)),
        !fo.result.sigma_dex.nan(),
        of_ordinary_size(v),
        of_ordinary_size(w),
    ensures
        ({
            let mu = r.mean_log10_h;
            let var = mean_variance(math, fo, q);
            let scatter = fmul(fo.result.sigma_dex, fo.result.sigma_dex);
            let (near, far) = (fmul(q.pi_z, v), fmul(q.pi_z, w));
            &&& fle(fmul(v, v), var) || fle(fmul(v, v), scatter) ==> {
                &&& fle(r.pi_low_h, answer(math, Call::Pow10(fsub(mu, near))))
                &&& fle(answer(math, Call::Pow10(fadd(mu, near))), r.pi_high_h)
            }
            &&& fle(fadd(var, scatter), fmul(w, w)) ==> {
                &&& fle(answer(math, Call::Pow10(fsub(mu, far))), r.pi_low_h)
                &&& fle(r.pi_high_h, answer(math, Call::Pow10(fadd(mu, far))))
            }
        }),
{
    let mu = r.mean_log10_h;
    let var = mean_variance(math, fo, q);
    let sigma = fo.result.sigma_dex;
    let scatter = fmul(sigma, sigma);
    lemma_square_of_size(sigma);
    lemma_square_of_size(v);
    lemma_square_of_size(w);
    law_sums_ordered(var, var, scatter, scatter);
    let both = fadd(var, scatter);
    law_sum_grows(var, scatter);
    law_commutes(var, scatter);
    law_sum_grows(scatter, var);
    let se = answer(math, Call::Sqrt(both));
    assert(answer(math, Call::Sqrt(fmul(v, v))) == v);
    assert(answer(math, Call::Sqrt(fmul(w, w))) == w);
    if fle(fmul(v, v), var) || fle(fmul(v, v), scatter) {
        assert(fle(fmul(v, v), both));
        assert(fle(v, se));
        lemma_reaches(math, mu, q.pi_z, v, se);
    }
    if fle(both, fmul(w, w)) {
        assert(fle(se, w));
        lemma_reaches(math, mu, q.pi_z, se, w);
    }
}

proof fn lemma_reaches<M: Fn(Call) -> Real>(math: M, mu: Real, z: Real, a: Real, b: Real)
    requires
        is_faithful(math),
        mu.finite(),
        flt(lit(ZERO), z),
        z.finite(),
        fle(lit(ZERO), a),
        fle(a, b),
    ensures
        fle(
            answer(math, Call::Pow10(fsub(mu, fmul(z, b)))),
            answer(math, Call::Pow10(fsub(mu, fmul(z, a)))),
        ),
        fle(
            answer(math, Call::Pow10(fadd(mu, fmul(z, a)))),
            answer(math, Call::Pow10(fadd(mu, fmul(z, b)))),
        ),
{
    law_product_monotone(a, b, z);
    law_commutes(a, z);
    law_commutes(b, z);
    let (x, y) = (fmul(z, a), fmul(z, b));
    law_difference_antitone(x, y, mu);
    law_sum_monotone(x, y, mu);
    law_commutes(x, mu);
    law_commutes(y, mu);
}

/// The level of an interval is what is left when both tails beyond it are taken off, within
/// four parts in 2^50, and does not fall as the interval grows, but for the roundings.
pub proof fn law_level_is_between_tails<M: Fn(Call) -> Real>(
    math: M,
    fo: FitOutput,
    q: Ask,
    r: PredictionOut,
    wider: Ask,
    s: PredictionOut,
)
    requires
        is_faithful(math),
        answers(math, fo, q, r),
        answers(math, fo, wider, s),
        fle(q.pi_z, wider.pi_z),
    ensures
        size_of(
            r.pi_level.value() + 2 * survival_of(math, q.pi_z).value() - one_quanta(),
        ) <= 4 * grain(),
        r.pi_level.value() <= s.pi_level.value() + 40 * grain(),
{
    lemma_level(math, q.pi_z);
    lemma_level(math, wider.pi_z);
    law_survival_nearly_falls(math, q.pi_z, wider.pi_z);
}

proof fn lemma_level<M: Fn(Call) -> Real>(math: M, z: Real)
    requires
        is_faithful(math),
        !z.nan(),
    ensures
        size_of(
            fsub(lit(ONE), erfc_of(math, fdiv(z, lit(SQRT_2)))).value() + 2 * survival_of(
                math,
                z,
            ).value() - one_quanta(),
        ) <= 4 * grain(),
{
    let q = one_quanta();
    let x = fdiv(z, lit(SQRT_2));
    law_division_monotone(z, z, lit(SQRT_2));
    law_erf_within(math, x);
    let e = erf_of(math, x);
    lemma_one();
    lemma_grain();
    assert(mag(0) == 0);
    assert(lit(MINUS_ONE) == fneg(lit(ONE)));
    lemma_ranks_values(lit(MINUS_ONE), e);
    lemma_ranks_values(e, lit(ONE));
    lemma_double(ONE as int);
    let c = fsub(lit(ONE), e);
    law_sum_bounded(lit(ONE), fneg(e), TWO as int);
    lemma_sum_off(lit(ONE), fneg(e));
    lemma_double(TWO as int);
    law_sum_bounded(lit(ONE), fneg(c), FOUR as int);
    lemma_sum_off(lit(ONE), fneg(c));
    law_survival_error(math, z, e.value(), 0);
    let k = size_of(2 * survival_of(math, z).value() - (q - e.value()));
    assert(k <= grain()) by (nonlinear_arith)
        requires
            k * (2 * BINADE) <= 2 * q,
            q == 0x4_0000_0000_0000 * grain(),
            2 <= grain(),
    ;
}

/// The leverage of a point is above 1 or below it as the variance of its mean is above that of
/// the lives or below it.
pub proof fn law_leverage_compares_variances<M: Fn(Call) -> Real>(
    math: M,
    fo: FitOutput,
    q: Ask,
    r: PredictionOut,
)
    requires
        answers(math, fo, q, r),
        fle(lit(ZERO), mean_variance(math, fo, q)),
        flt(lit(ZERO), fmul(fo.result.sigma_dex, fo.result.sigma_dex)),
        fmul(fo.result.sigma_dex, fo.result.sigma_dex).finite(),
    ensures
        ({
            let var = mean_variance(math, fo, q);
            let s2 = fmul(fo.result.sigma_dex, fo.result.sigma_dex);
            &&& fle(s2, var) ==> fle(lit(ONE), r.extrapolation_leverage)
            &&& fle(var, s2) ==> fle(r.extrapolation_leverage, lit(ONE))
            &&& var.zero() ==> r.extrapolation_leverage.zero()
        }),
{
    let var = mean_variance(math, fo, q);
    let s2 = fmul(fo.result.sigma_dex, fo.result.sigma_dex);
    lemma_one();
    lemma_whole_share(s2);
    law_quotient_monotone(var, var, s2);
    if fle(s2, var) {
        law_quotient_monotone(s2, var, s2);
    }
    if fle(var, s2) {
        law_quotient_monotone(var, s2, s2);
    }
    if var.zero() {
        lemma_size_of_share(var, s2);
    }
}

proof fn lemma_whole_share(x: Real)
    requires
        flt(lit(ZERO), x),
        x.finite(),
    ensures
        fdiv(x, x) == lit(ONE),
{
    lemma_one();
    let q = one_quanta();
    let m = mag(x.size());
    lemma_pow2_pos(ONE_EXPONENT as nat);
    assert(mag(0) == 0);
    lemma_mag_monotone(0, x.size());
    assert(m * q == q * m) by (nonlinear_arith);
    law_rounding_scaled(q, 1, m);
    law_rounding_exact(ONE as int);
    assert(1 * m == m);
}

/// A number between two squares has its root between the two.
proof fn lemma_root_between<M: Fn(Call) -> Real>(math: M, v: Real, x: Real)
    requires
        takes_roots(math),
        of_ordinary_size(x),
        fle(lit(ZERO), v),
    ensures
        fle(fmul(x, x), v) ==> fle(x, answer(math, Call::Sqrt(v))),
        fle(v, fmul(x, x)) ==> fle(answer(math, Call::Sqrt(v)), x),
{
    lemma_square_of_size(x);
    assert(answer(math, Call::Sqrt(fmul(x, x))) == x);
}

/// The standard error of a parameter of the curve is the root of its variance: no less than any
/// number whose square the variance holds, and no more than any whose square holds it.
pub proof fn law_errors_are_roots<M: Fn(Call) -> Real, S: Fn(Print) -> String>(
    math: M,
    show: S,
    cfg: FitConfig,
    fo: FitOutput,
    i: int,
    x: Real,
)
    requires
        takes_roots(math),
        fitted(math, show, cfg, fo),
        0 <= i < n_base(cfg.kind),
        of_ordinary_size(x),
        fle(lit(ZERO), rows(fo.cov@)[i][i]),
    ensures
        ({
            let first = if cfg.kind == ModelKind::LarsonMiller {
                1int
            } else {
                0int
            };
            let v = rows(fo.cov@)[i][i];
            let se = fo.result.params@[first + i].se;
            &&& se is Some
            &&& fle(fmul(x, x), v) ==> fle(x, se->0)
            &&& fle(v, fmul(x, x)) ==> fle(se->0, x)
        }),
{
    let raw = found(math, cfg).0;
    let p = physical_of(math, cfg.kind, raw, hottest(cfg.observations@));
    lemma_root_between(math, rows(fo.cov@)[i][i], x);
    assert(params_are(math, cfg.kind, p, rows(fo.cov@), fo.result.params@));
    lemma_error(math, cfg.kind, p, rows(fo.cov@), fo.result.params@, i);
}

proof fn lemma_error<M: Fn(Call) -> Real>(
    math: M,
    kind: ModelKind,
    p: Seq<Real>,
    cov: Seq<Seq<Real>>,
    params: Seq<ParamOut>,
    i: int,
)
    requires
        params_are(math, kind, p, cov, params),
        0 <= i < n_base(kind),
    ensures
        params[offset_of(kind) + i].se == Some(answer(math, Call::Sqrt(cov[i][i]))),
{
    let q = params[offset_of(kind) + i];
}

/// The scatter that is reported is the one by which the likelihood counts distances from the
/// curve, wherever it is no less than the least.
pub proof fn law_scatter_is_of_likelihood<M: Fn(Call) -> Real, S: Fn(Print) -> String>(
    math: M,
    show: S,
    cfg: FitConfig,
    fo: FitOutput,
    i: int,
)
    requires
        fitted(math, show, cfg, fo),
        fle(lit(LEAST_SPREAD), fo.result.sigma_dex),
        0 <= i < eval_of(math, cfg, fo.raw@).1.len(),
    ensures
        spreads_of(math, cfg, fo.raw@, i) == fdiv(
            eval_of(math, cfg, fo.raw@).1[i].g,
            fo.result.sigma_dex,
        ),
{
}

/// A point that lies at an edge of the envelope, within a thousand-millionth of it or beyond, is
/// reported at that edge, and none that lies further inside.
pub proof fn law_edges_are_reported<M: Fn(Call) -> Real>(
    math: M,
    fo: FitOutput,
    q: Ask,
    r: PredictionOut,
)
    requires
        answers(math, fo, q, r),
        q.temp_k.finite() && q.stress.finite(),
        q.env.temp_min_k.finite() && q.env.temp_max_k.finite(),
        q.env.stress_min_mpa.finite() && q.env.stress_max_mpa.finite(),
    ensures
        ({
            let e = lit(EDGE).value();
            let at = views(r.boundary_active@);
            let (t, s) = (q.temp_k, q.stress);
            &&& t.value() <= q.env.temp_min_k.value() + e ==> at.contains("temp_min"@)
            &&& q.env.temp_max_k.value() - e <= t.value() ==> at.contains("temp_max"@)
            &&& s.value() <= q.env.stress_min_mpa.value() + e ==> at.contains("stress_min"@)
            &&& q.env.stress_max_mpa.value() - e <= s.value() ==> at.contains("stress_max"@)
            &&& flt(fadd(q.env.temp_min_k, lit(EDGE)), t) && flt(
                t,
                fsub(q.env.temp_max_k, lit(EDGE)),
            ) && flt(fadd(q.env.stress_min_mpa, lit(EDGE)), s) && flt(
                s,
                fsub(q.env.stress_max_mpa, lit(EDGE)),
            ) ==> at.len() == 0
        }),
{
    let (t, s) = (q.temp_k, q.stress);
    let e = lit(EDGE);
    law_sum_passes(q.env.temp_min_k, e, t);
    law_sum_passes(q.env.stress_min_mpa, e, s);
    law_sum_passes(q.env.temp_max_k, fneg(e), t);
    law_sum_passes(q.env.stress_max_mpa, fneg(e), s);
    let a = given_if(fle(t, fadd(q.env.temp_min_k, e)), "temp_min"@);
    let b = given_if(fle(fsub(q.env.temp_max_k, e), t), "temp_max"@);
    let c = given_if(fle(s, fadd(q.env.stress_min_mpa, e)), "stress_min"@);
    let d = given_if(fle(fsub(q.env.stress_max_mpa, e), s), "stress_max"@);
    let at = views(r.boundary_active@);
    assert(at == a + b + c + d);
    if a.len() > 0 {
        assert(at[0] == "temp_min"@);
    }
    if b.len() > 0 {
        assert(at[a.len() as int] == "temp_max"@);
    }
    if c.len() > 0 {
        assert(at[(a + b).len() as int] == "stress_min"@);
    }
    if d.len() > 0 {
        assert(at[(a + b + c).len() as int] == "stress_max"@);
    }
}

} // verus!
