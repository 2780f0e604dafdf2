//! What an observation adds to the likelihood: one that was stopped by what it outlived, one
//! that fractured by how far it lies from the curve.
use vstd::prelude::*;
use crate::host::{answer, is_faithful, Call};
use crate::models::{mean_log_life_of, n_base, physical_of};
use crate::normal::{fsquare, law_survival_is_probability, lemma_half_of_zero, norm_log_cdf_of,
    norm_log_pdf_of, survival_of, LEAST, MINUS_SIX, SIX, SQRT_2PI};
use crate::normal::rise::{exponential_falls, grain, law_survival_is_sure, law_survival_sides,
    lemma_grain};
use crate::normal::tail::{law_log_cdf_not_positive, law_log_pdf_even, law_log_pdf_falls,
    law_near_cdf_falls, lemma_half_square, lemma_near_cdf};
use crate::number::{fabs, fle, flt, fmax, fneg, lit, mag, Real, BINADE, INF};
use crate::number::arith::{fadd, fdiv, fmul, ONE_EXPONENT};
use crate::number::consts::{FOUR, HALF, ONE, TWO, ZERO};
use crate::number::convert::one_quanta;
use crate::number::error::size_of;
use crate::number::order::{law_commutes, law_division_monotone, law_negation, law_product_exact,
    law_product_monotone, law_products_ordered, law_quotient_monotone, law_signs, law_sum_exact,
    law_sum_monotone, law_sums_ordered, law_unit_factors, law_zero_added, lemma_double, lemma_one,
    lemma_ranks_values};
use crate::number::rounding::lemma_mag_monotone;
use crate::number::shape::{law_divisor_lowers, law_quotient_exact, law_squares_ordered,
    lemma_nothing_times, lemma_size_of_share, lemma_square_of_size};
use crate::stats::{FitConfig, ObsKind};
use crate::stats::workspace::{all_finite, bias_of, eval_of, free_count, heat_at, hottest,
    lemma_constant_statistic, log_spread, penalty_of, per_obs, scale_of, total_of, PerObs,
    LEAST_SPREAD};
use vstd::arithmetic::power2::{lemma_pow2_pos, pow2};

verus! {

/// The spread that the searched values stand for.
pub open spec fn spread_at<M: Fn(Call) -> Real>(math: M, cfg: FitConfig, raw: Seq<Real>) -> Real {
    fmax(answer(math, Call::Exp(log_spread(cfg, raw))), lit(LEAST_SPREAD))
}

/// How many spreads the `i`-th observation lies above the curve.
pub open spec fn spreads_of<M: Fn(Call) -> Real>(math: M, cfg: FitConfig, raw: Seq<Real>, i: int) -> Real {
    fdiv(eval_of(math, cfg, raw).1[i].g, spread_at(math, cfg, raw))
}

/// A test that was stopped adds what is never negative: from 6 spreads above the curve on it
/// is half their square or more; below the curve it is at most minus the logarithm of any
/// probability under 1/2, and above the curve at least minus that of any over 1/2.
pub proof fn law_censored_counts_survival<M: Fn(Call) -> Real>(
    math: M,
    cfg: FitConfig,
    raw: Seq<Real>,
    i: int,
    p: Real,
)
    requires
        is_faithful(math),
        0 <= i < eval_of(math, cfg, raw).1.len(),
        cfg.observations@[i].kind == ObsKind::Censored,
        fle(lit(LEAST), p),
        fle(p, lit(ONE)),
    ensures
        ({
            let nll = eval_of(math, cfg, raw).1[i].nll;
            let z = spreads_of(math, cfg, raw, i);
            &&& fle(lit(ZERO), nll)
            &&& fle(lit(SIX), z) ==> fle(fmul(lit(HALF), fmul(z, z)), nll)
            &&& flt(z, lit(ZERO)) && z.size() > 1 && 2 * p.value() <= one_quanta() - 14 * grain()
                ==> fle(nll, fneg(answer(math, Call::Ln(p))))
            &&& fle(lit(ZERO), z) && flt(z, lit(SIX)) && one_quanta() + 14 * grain() <= 2
                * p.value() ==> fle(fneg(answer(math, Call::Ln(p))), nll)
        }),
{
    let n = cfg.observations@.len();
    assert(all_finite(math, cfg, raw, n as int));
    let o = per_obs(math, cfg, raw, i);
    assert(eval_of(math, cfg, raw).1[i] == o);
    let z = spreads_of(math, cfg, raw, i);
    let c = norm_log_cdf_of(math, fneg(z));
    assert(o.nll == fneg(c));
    assert(o.nll.finite());
    law_log_cdf_not_positive(math, fneg(z));
    law_negation(c, lit(ZERO));
    law_negation(lit(SIX), z);
    assert(fneg(lit(SIX)) == lit(MINUS_SIX));
    if fle(lit(SIX), z) {
        let a = fneg(z);
        law_signs(z, a);
        law_signs(z, z);
        law_commutes(a, z);
        law_negation(c, fneg(fmul(lit(HALF), fmul(a, a))));
        if z.finite() {
            law_products_ordered(z, z, z, z);
        }
        law_negation(fmul(z, z), lit(ZERO));
        assert(fmul(a, a) == fmul(z, z));
        law_negation(fmul(lit(HALF), fmul(z, z)), lit(ZERO));
    } else if !z.nan() {
        lemma_near_cdf(math, z);
        law_survival_sides(math, z);
        law_survival_is_probability(math, z);
        let s = survival_of(math, z);
        lemma_grain();
        lemma_one();
        assert(mag(0) == 0);
        if flt(s, p) {
            lemma_ranks_values(s, p);
            lemma_mag_monotone(s.size(), p.size());
        }
        if flt(p, s) {
            lemma_ranks_values(p, s);
            lemma_mag_monotone(p.size(), s.size());
        }
        law_negation(answer(math, Call::Ln(p)), c);
        law_negation(c, answer(math, Call::Ln(p)));
    }
}

/// A test that was stopped 6 spreads or more below the curve adds next to nothing: no more than
/// minus the logarithm of any probability up to 1 less 2^-20.
pub proof fn law_censored_vanishes<M: Fn(Call) -> Real>(
    math: M,
    cfg: FitConfig,
    raw: Seq<Real>,
    i: int,
    p: Real,
)
    requires
        is_faithful(math),
        exponential_falls(math),
        0 <= i < eval_of(math, cfg, raw).1.len(),
        cfg.observations@[i].kind == ObsKind::Censored,
        fle(spreads_of(math, cfg, raw, i), lit(MINUS_SIX)),
        fle(lit(LEAST), p),
        fle(p, lit(ONE)),
        p.value() < one_quanta() - 0x2000_0000 * grain(),
    ensures
        fle(lit(ZERO), eval_of(math, cfg, raw).1[i].nll),
        fle(eval_of(math, cfg, raw).1[i].nll, fneg(answer(math, Call::Ln(p)))),
{
    law_censored_counts_survival(math, cfg, raw, i, lit(ONE));
    assert(all_finite(math, cfg, raw, cfg.observations@.len() as int));
    let o = per_obs(math, cfg, raw, i);
    assert(eval_of(math, cfg, raw).1[i] == o);
    let z = spreads_of(math, cfg, raw, i);
    let s = survival_of(math, z);
    lemma_near_cdf(math, z);
    law_survival_is_probability(math, z);
    law_survival_is_sure(math, z);
    if flt(s, p) {
        lemma_ranks_values(s, p);
    }
    law_negation(answer(math, Call::Ln(p)), norm_log_cdf_of(math, fneg(z)));
}

/// Of two tests that were stopped, at one spread, the one that lies higher above the curve
/// never adds less, up to 6 spreads and but for the roundings: the further the predicted life
/// lies above the stop, the less the test weighs.
pub proof fn law_censored_rises<M: Fn(Call) -> Real>(
    math: M,
    cfg: FitConfig,
    raw: Seq<Real>,
    i: int,
    other: FitConfig,
    values: Seq<Real>,
    j: int,
)
    requires
        is_faithful(math),
        0 <= i < eval_of(math, cfg, raw).1.len(),
        0 <= j < eval_of(math, other, values).1.len(),
        cfg.observations@[i].kind == ObsKind::Censored,
        other.observations@[j].kind == ObsKind::Censored,
        spread_at(math, cfg, raw) == spread_at(math, other, values),
        spread_at(math, cfg, raw).finite(),
        fle(eval_of(math, cfg, raw).1[i].g, eval_of(math, other, values).1[j].g),
        flt(spreads_of(math, other, values, j), lit(SIX)),
    ensures
        ({
            let y = spreads_of(math, cfg, raw, i);
            let z = spreads_of(math, other, values, j);
            fle(eval_of(math, cfg, raw).1[i].nll, eval_of(math, other, values).1[j].nll) || (
            survival_of(math, y).value() < survival_of(math, z).value() && survival_of(
                math,
                z,
            ).value() <= survival_of(math, y).value() + 16 * grain())
        }),
{
    assert(all_finite(math, cfg, raw, cfg.observations@.len() as int));
    assert(all_finite(math, other, values, other.observations@.len() as int));
    let a = per_obs(math, cfg, raw, i);
    let b = per_obs(math, other, values, j);
    assert(eval_of(math, cfg, raw).1[i] == a);
    assert(eval_of(math, other, values).1[j] == b);
    let s = spread_at(math, cfg, raw);
    law_division_monotone(a.g, b.g, s);
    let y = fdiv(a.g, s);
    let z = fdiv(b.g, s);
    law_near_cdf_falls(math, y, z);
    law_negation(norm_log_cdf_of(math, fneg(z)), norm_log_cdf_of(math, fneg(y)));
}

/// Of two tests that fractured, at one spread, the one further from the curve, on whichever
/// side, never adds less, and two as far from it add the same; each adds the logarithm of the
/// spread and half the square of its distance in spreads or more.
pub proof fn law_fractured_counts_distance<M: Fn(Call) -> Real>(
    math: M,
    cfg: FitConfig,
    raw: Seq<Real>,
    i: int,
    other: FitConfig,
    values: Seq<Real>,
    j: int,
)
    requires
        is_faithful(math),
        0 <= i < eval_of(math, cfg, raw).1.len(),
        0 <= j < eval_of(math, other, values).1.len(),
        cfg.observations@[i].kind == ObsKind::Exact,
        other.observations@[j].kind == ObsKind::Exact,
        log_spread(cfg, raw) == log_spread(other, values),
        spread_at(math, cfg, raw).finite(),
        fle(fabs(eval_of(math, cfg, raw).1[i].g), fabs(eval_of(math, other, values).1[j].g)),
        spreads_of(math, other, values, j).finite(),
    ensures
        ({
            let a = eval_of(math, cfg, raw).1[i];
            let b = eval_of(math, other, values).1[j];
            let z = fabs(spreads_of(math, other, values, j));
            &&& fle(a.nll, b.nll)
            &&& fabs(a.g) == fabs(b.g) ==> a.nll == b.nll
            &&& fle(fadd(fmul(fmul(lit(HALF), z), z), log_spread(other, values)), b.nll)
        }),
{
    assert(all_finite(math, cfg, raw, cfg.observations@.len() as int));
    assert(all_finite(math, other, values, other.observations@.len() as int));
    let a = per_obs(math, cfg, raw, i);
    let b = per_obs(math, other, values, j);
    assert(eval_of(math, cfg, raw).1[i] == a);
    assert(eval_of(math, other, values).1[j] == b);
    let s = spread_at(math, cfg, raw);
    let l = log_spread(cfg, raw);
    let y = fdiv(a.g, s);
    let z = fdiv(b.g, s);
    let (v, w) = (norm_log_pdf_of(math, y), norm_log_pdf_of(math, z));
    assert(a.nll == fadd(fneg(v), l) && a.nll.finite());
    assert(b.nll == fadd(fneg(w), l) && b.nll.finite());
    assert(l.finite() && v.finite() && w.finite());
    lemma_size_of_share(a.g, s);
    lemma_size_of_share(b.g, s);
    law_quotient_monotone(fabs(a.g), fabs(b.g), s);
    let c = answer(math, Call::Ln(lit(SQRT_2PI)));
    assert(c.finite());
    law_log_pdf_falls(math, y, z);
    law_negation(w, v);
    law_sum_monotone(fneg(v), fneg(w), l);
    if fabs(a.g) == fabs(b.g) {
        law_log_pdf_even(math, y);
        assert(z == y || z == fneg(y));
    }
    let h = fmul(fmul(lit(HALF), fabs(z)), fabs(z));
    lemma_half_square(z);
    assert(h.finite());
    law_negation(w, fneg(h));
    law_sum_monotone(h, fneg(w), l);
}

/// The sum of the numbers, one by one, from `from` on.
pub open spec fn added_to(from: Real, terms: Seq<Real>) -> Real
    decreases terms.len(),
{
    if terms.len() == 0 {
        from
    } else {
        fadd(added_to(from, terms.drop_last()), terms.last())
    }
}

pub open spec fn terms_of(parts: Seq<PerObs>) -> Seq<Real> {
    parts.map_values(|p: PerObs| p.nll)
}

proof fn lemma_total<M: Fn(Call) -> Real>(math: M, cfg: FitConfig, raw: Seq<Real>, k: nat)
    requires
        k <= cfg.observations@.len(),
    ensures
        total_of(math, cfg, raw, k) == added_to(
            penalty_of(cfg, raw, free_count(cfg, cfg.heats@.len())),
            Seq::new(k, |i: int| per_obs(math, cfg, raw, i).nll),
        ),
    decreases k,
{
    let terms = Seq::new(k, |i: int| per_obs(math, cfg, raw, i).nll);
    if k > 0 {
        lemma_total(math, cfg, raw, (k - 1) as nat);
        assert(terms.drop_last() =~= Seq::new(
            (k - 1) as nat,
            |i: int| per_obs(math, cfg, raw, i).nll,
        ));
    }
}

/// What is minimised is the penalty and then what each observation adds, each once.
pub proof fn law_likelihood_of_parts<M: Fn(Call) -> Real>(math: M, cfg: FitConfig, raw: Seq<Real>)
    requires
        eval_of(math, cfg, raw).1.len() > 0,
    ensures
        ({
            let (total, parts) = eval_of(math, cfg, raw);
            &&& parts.len() == cfg.observations@.len()
            &&& total == added_to(
                penalty_of(cfg, raw, free_count(cfg, cfg.heats@.len())),
                terms_of(parts),
            )
            &&& forall|i: int| 0 <= i < parts.len() ==> (#[trigger] parts[i]).nll.finite()
        }),
{
    let n = cfg.observations@.len();
    assert(all_finite(math, cfg, raw, n as int));
    lemma_total(math, cfg, raw, n);
    let parts = eval_of(math, cfg, raw).1;
    assert(terms_of(parts) =~= Seq::new(n, |i: int| per_obs(math, cfg, raw, i).nll));
    assert forall|i: int| 0 <= i < parts.len() implies (#[trigger] parts[i]).nll.finite() by {
        assert(per_obs(math, cfg, raw, i).nll.finite());
    }
}

/// The bias of the `j`-th free heat among the searched values.
pub open spec fn free_bias(cfg: FitConfig, raw: Seq<Real>, j: int) -> Real {
    raw[n_base(cfg.kind) as int + j]
}

/// The penalty is never negative, is nothing where every free bias is 0, and does not fall as
/// the biases grow; a wider shrinkage never raises it.
pub proof fn law_penalty_shrinks(
    cfg: FitConfig,
    other: FitConfig,
    raw: Seq<Real>,
    values: Seq<Real>,
    k: nat,
)
    requires
        cfg.kind == other.kind,
        flt(lit(ZERO), other.shrink_tau),
        other.shrink_tau.finite(),
        fle(other.shrink_tau, cfg.shrink_tau),
        cfg.shrink_tau.finite(),
        forall|j: int|
            0 <= j < k ==> fle(
                fabs(#[trigger] free_bias(cfg, raw, j)),
                fabs(free_bias(other, values, j)),
            ),
    ensures
        fle(lit(ZERO), penalty_of(cfg, raw, k)),
        fle(penalty_of(cfg, raw, k), penalty_of(other, values, k)),
        (forall|j: int| 0 <= j < k ==> (#[trigger] free_bias(cfg, raw, j)).zero()) ==> penalty_of(
            cfg,
            raw,
            k,
        ).zero(),
    decreases k,
{
    if k > 0 {
        law_penalty_shrinks(cfg, other, raw, values, (k - 1) as nat);
        let a = free_bias(cfg, raw, k - 1);
        let b = free_bias(other, values, k - 1);
        let (s, t) = (cfg.shrink_tau, other.shrink_tau);
        lemma_size_of_share(a, s);
        lemma_size_of_share(b, t);
        law_quotient_monotone(fabs(a), fabs(b), s);
        law_divisor_lowers(fabs(b), t, s);
        let (x, y) = (fdiv(a, s), fdiv(b, t));
        law_squares_ordered(x, y);
        law_product_monotone(fsquare(x), fsquare(y), lit(HALF));
        law_commutes(fsquare(x), lit(HALF));
        law_commutes(fsquare(y), lit(HALF));
        law_sums_ordered(
            penalty_of(cfg, raw, (k - 1) as nat),
            penalty_of(other, values, (k - 1) as nat),
            fmul(lit(HALF), fsquare(x)),
            fmul(lit(HALF), fsquare(y)),
        );
        if fsquare(x).zero() {
            lemma_half_of_zero(fsquare(x));
            assert(mag(0) == 0);
        }
        assert((forall|j: int| 0 <= j < k ==> (#[trigger] free_bias(cfg, raw, j)).zero())
            ==> a.zero());
    }
}

/// The statistic of an observation of constant load is its log10 life less the mean that the
/// curve gives at its point and the bias of its heat, but for two roundings.
pub proof fn law_statistic_of_constant<M: Fn(Call) -> Real>(
    math: M,
    cfg: FitConfig,
    raw: Seq<Real>,
    i: int,
)
    requires
        0 <= i < eval_of(math, cfg, raw).1.len(),
        !cfg.observations@[i].variable,
        ({
            let o = cfg.observations@[i];
            let mu = mean_log_life_of(
                cfg.kind,
                physical_of(math, cfg.kind, raw, hottest(cfg.observations@)),
                o.temp_k,
                o.stress,
                scale_of(math, cfg.observations@),
            );
            let b = bias_of(cfg, heat_at(cfg, o.heat@), raw);
            &&& o.y_time.finite() && mu.finite() && b.finite() && fadd(mu, b).finite()
            &&& eval_of(math, cfg, raw).1[i].g.finite()
        }),
    ensures
        ({
            let o = cfg.observations@[i];
            let mu = mean_log_life_of(
                cfg.kind,
                physical_of(math, cfg.kind, raw, hottest(cfg.observations@)),
                o.temp_k,
                o.stress,
                scale_of(math, cfg.observations@),
            );
            let b = bias_of(cfg, heat_at(cfg, o.heat@), raw);
            size_of(
                eval_of(math, cfg, raw).1[i].g.value() - (o.y_time.value() - mu.value()
                    - b.value()),
            ) * (2 * BINADE) <= size_of(o.y_time.value() - fadd(mu, b).value()) + size_of(
                mu.value() + b.value(),
            )
        }),
{
    let o = cfg.observations@[i];
    assert(eval_of(math, cfg, raw).1[i] == per_obs(math, cfg, raw, i));
    let mu = mean_log_life_of(
        cfg.kind,
        physical_of(math, cfg.kind, raw, hottest(cfg.observations@)),
        o.temp_k,
        o.stress,
        scale_of(math, cfg.observations@),
    );
    lemma_constant_statistic(o.y_time, mu, bias_of(cfg, heat_at(cfg, o.heat@), raw));
}

proof fn lemma_cost_of_share(b: Real, t: Real)
    requires
        flt(lit(ZERO), t),
        BINADE <= t.size() < INF - BINADE,
        b.size() == t.size() || b.size() == t.size() + BINADE,
    ensures
        ({
            let c = fmul(lit(HALF), fsquare(fdiv(b, t)));
            &&& b.size() == t.size() ==> c == lit(HALF)
            &&& b.size() == t.size() + BINADE ==> c == lit(TWO)
        }),
{
    let q = pow2(ONE_EXPONENT as nat) as int;
    lemma_one();
    lemma_pow2_pos(ONE_EXPONENT as nat);
    lemma_double(HALF as int);
    lemma_double(ONE as int);
    lemma_double(TWO as int);
    lemma_double(t.size());
    assert(mag(0) == 0);
    let m = mag(t.size());
    let c = if b.size() == t.size() {
        lit(ONE)
    } else {
        lit(TWO)
    };
    let x = if b.neg() {
        fneg(c)
    } else {
        c
    };
    assert(m * q == q * m && (2 * m) * q == (2 * q) * m) by (nonlinear_arith);
    law_quotient_exact(b, t, x);
    lemma_square_of_size(x);
    assert(fabs(x) == c);
    law_unit_factors(lit(ONE));
    law_unit_factors(lit(HALF));
    assert((2 * q) * (2 * q) == (4 * q) * q) by (nonlinear_arith);
    law_product_exact(lit(TWO), lit(TWO), lit(FOUR));
    let h = mag(HALF as int);
    assert(h * (4 * q) == (2 * q) * q) by (nonlinear_arith)
        requires
            2 * h == q,
    ;
    law_product_exact(lit(HALF), lit(FOUR), lit(TWO));
}

/// Where one free bias alone is not 0, the penalty is a half where it is as large as the
/// shrinkage, and four times as much where it is twice as large.
pub proof fn law_penalty_of_one_bias(cfg: FitConfig, raw: Seq<Real>, k: nat, m: int)
    requires
        flt(lit(ZERO), cfg.shrink_tau),
        BINADE <= cfg.shrink_tau.size() < INF - BINADE,
        0 <= m < k,
        forall|j: int| 0 <= j < k && j != m ==> (#[trigger] free_bias(cfg, raw, j)).zero(),
    ensures
        fabs(free_bias(cfg, raw, m)) == cfg.shrink_tau ==> penalty_of(cfg, raw, k) == lit(HALF),
        fabs(free_bias(cfg, raw, m)) == fadd(cfg.shrink_tau, cfg.shrink_tau) ==> penalty_of(
            cfg,
            raw,
            k,
        ) == lit(TWO),
    decreases k,
{
    let t = cfg.shrink_tau;
    let b = free_bias(cfg, raw, m);
    lemma_one();
    lemma_pow2_pos(ONE_EXPONENT as nat);
    lemma_double(HALF as int);
    lemma_double(ONE as int);
    lemma_double(t.size());
    assert(mag(0) == 0);
    lemma_mag_monotone(0, t.size());
    law_sum_exact(t, t, Real { bits: (t.bits + BINADE) as u64 });
    if b.size() == t.size() || b.size() == t.size() + BINADE {
        lemma_cost_of_share(b, t);
        if k - 1 == m {
            assert forall|j: int| 0 <= j < m implies (#[trigger] free_bias(cfg, raw, j)).zero() by {
            }
            lemma_no_penalty(cfg, raw, m as nat);
            law_zero_added(lit(HALF));
            law_zero_added(lit(TWO));
        } else {
            law_penalty_of_one_bias(cfg, raw, (k - 1) as nat, m);
            lemma_no_cost(free_bias(cfg, raw, k - 1), t);
            let c = fmul(lit(HALF), fsquare(fdiv(free_bias(cfg, raw, k - 1), t)));
            law_sum_exact(lit(HALF), c, lit(HALF));
            law_sum_exact(lit(TWO), c, lit(TWO));
        }
    }
}

proof fn lemma_no_cost(b: Real, t: Real)
    requires
        b.zero(),
        flt(lit(ZERO), t),
        t.finite(),
    ensures
        fmul(lit(HALF), fsquare(fdiv(b, t))).zero(),
{
    lemma_size_of_share(b, t);
    lemma_square_of_size(fdiv(b, t));
    lemma_nothing_times(fsquare(fdiv(b, t)), lit(HALF));
}

proof fn lemma_no_penalty(cfg: FitConfig, raw: Seq<Real>, k: nat)
    requires
        flt(lit(ZERO), cfg.shrink_tau),
        cfg.shrink_tau.finite(),
        forall|j: int| 0 <= j < k ==> (#[trigger] free_bias(cfg, raw, j)).zero(),
    ensures
        penalty_of(cfg, raw, k) == lit(ZERO),
    decreases k,
{
    assert(mag(0) == 0);
    if k > 0 {
        lemma_no_penalty(cfg, raw, (k - 1) as nat);
        lemma_no_cost(free_bias(cfg, raw, k - 1), cfg.shrink_tau);
    }
}

} // verus!
