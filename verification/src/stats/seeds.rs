//! What a search starts from.
use vstd::prelude::*;
use crate::host::{answer, is_faithful, of_ordinary_size, takes_roots, Call};
use crate::linalg::{fsum, mean_of};
use crate::models::{mean_log_life_of, n_base, physical_of};
use crate::number::{fle, flt, fmax, fneg, lit, mag, Real};
use crate::number::arith::{fmul, fsub, ONE_EXPONENT};
use crate::number::consts::{HALF, ONE, ZERO};
use crate::number::convert::{fint, one_quanta};
use crate::number::order::{law_commutes, law_quotient_monotone, law_scaling_monotone, law_signs,
    law_sums_ordered};
use crate::number::shape::{law_count_near, law_difference_is_felt, law_difference_not_negative,
    law_nothing_left, lemma_square_of_size};
use crate::stats::{FitConfig, Obs};
use crate::stats::start::{curve_start, full_residuals, heat_mean, is_plain, lemma_start_len,
    lemma_with_biases, padded, residuals_of, start_of, with_biases, LEAST_VARIANCE};
use crate::stats::workspace::{bias_of, dimensions, free_count, free_of, hottest, is_config,
    is_free, lemma_free_count, log_spread, points_of, scale_of, squares_from, stresses_of,
    temps_of};
use vstd::arithmetic::power2::lemma_pow2_pos;

verus! {

/// The parameters of the curve from which a search starts.
pub open spec fn start_curve<M: Fn(Call) -> Real>(math: M, cfg: FitConfig) -> Seq<Real> {
    physical_of(math, cfg.kind, start_of(math, cfg), hottest(cfg.observations@))
}

/// The biases of a start: what stands at the place of a free one, and that nothing before the
/// biases moves.
proof fn lemma_placed<M: Fn(Call) -> Real>(
    math: M,
    cfg: FitConfig,
    p: Seq<Real>,
    raw: Seq<Real>,
    k: nat,
    i: int,
)
    requires
        k <= cfg.heats@.len(),
        raw.len() == dimensions(cfg),
        0 <= i < cfg.heats@.len(),
        is_free(cfg, cfg.heats@[i]@),
    ensures
        ({
            let r = with_biases(math, cfg, p, raw, k);
            let at = n_base(cfg.kind) as int + free_of(cfg, i);
            let rr = heat_mean(math, cfg, p, cfg.reference_heat@);
            &&& r.len() == raw.len()
            &&& forall|j: int| 0 <= j < n_base(cfg.kind) ==> #[trigger] r[j] == raw[j]
            &&& i < k && !rr.nan() ==> r[at] == fsub(heat_mean(math, cfg, p, cfg.heats@[i]@), rr)
            &&& i < k && rr.nan() ==> r[at] == fsub(
                heat_mean(math, cfg, p, cfg.heats@[i]@),
                lit(ZERO),
            )
        }),
    decreases k,
{
    if k > 0 {
        lemma_placed(math, cfg, p, raw, (k - 1) as nat, i);
        let j = k - 1;
        lemma_free_count(cfg, i as nat, cfg.heats@.len());
        if is_free(cfg, cfg.heats@[j]@) {
            lemma_free_count(cfg, j as nat, cfg.heats@.len());
            if i < j {
                lemma_free_count(cfg, i as nat, j as nat);
            }
        }
    }
}

proof fn lemma_start<M: Fn(Call) -> Real>(math: M, cfg: FitConfig, i: int)
    requires
        is_config(cfg),
        0 <= i < cfg.heats@.len(),
        is_free(cfg, cfg.heats@[i]@),
    ensures
        ({
            let p = start_curve(math, cfg);
            let rr = heat_mean(math, cfg, p, cfg.reference_heat@);
            !rr.nan() ==> bias_of(cfg, i, start_of(math, cfg)) == fsub(
                heat_mean(math, cfg, p, cfg.heats@[i]@),
                rr,
            )
        }),
{
    let free = free_count(cfg, cfg.heats@.len());
    let raw = padded(math, curve_start(math, cfg), free);
    let p = physical_of(math, cfg.kind, raw, hottest(cfg.observations@));
    lemma_start_len(math, cfg);
    lemma_placed(math, cfg, p, raw, cfg.heats@.len(), i);
    lemma_free_count(cfg, i as nat, cfg.heats@.len());
    let s = start_of(math, cfg);
    assert(forall|j: int| 0 <= j < n_base(cfg.kind) ==> #[trigger] s[j] == raw[j]);
    assert(start_curve(math, cfg) =~= p);
}

/// A search starts with a positive bias for a heat whose samples outlive the curve by more, on
/// the mean, than those of the reference, with a negative one for a heat whose samples do by
/// less, and with none for a heat whose samples do by as much.
pub proof fn law_start_bias_follows_residuals<M: Fn(Call) -> Real>(math: M, cfg: FitConfig, i: int)
    requires
        is_config(cfg),
        0 <= i < cfg.heats@.len(),
        is_free(cfg, cfg.heats@[i]@),
        heat_mean(math, cfg, start_curve(math, cfg), cfg.heats@[i]@).finite(),
        heat_mean(math, cfg, start_curve(math, cfg), cfg.reference_heat@).finite(),
    ensures
        ({
            let p = start_curve(math, cfg);
            let h = heat_mean(math, cfg, p, cfg.heats@[i]@);
            let r = heat_mean(math, cfg, p, cfg.reference_heat@);
            let b = bias_of(cfg, i, start_of(math, cfg));
            &&& flt(r, h) ==> flt(lit(ZERO), b)
            &&& flt(h, r) ==> flt(b, lit(ZERO))
            &&& h == r ==> b.zero()
        }),
{
    let p = start_curve(math, cfg);
    let h = heat_mean(math, cfg, p, cfg.heats@[i]@);
    let r = heat_mean(math, cfg, p, cfg.reference_heat@);
    lemma_start(math, cfg, i);
    if flt(r, h) {
        law_difference_is_felt(r, h);
    }
    if flt(h, r) {
        law_difference_is_felt(h, r);
        law_signs(r, fneg(h));
        law_commutes(fneg(r), fneg(fneg(h)));
        assert(fneg(fneg(h)) == h);
    }
    law_nothing_left(h);
}

/// Where every plain sample of a heat lives at least as long as the curve says, their mean
/// residual is not negative.
pub proof fn law_mean_residual_has_sign<M: Fn(Call) -> Real>(
    math: M,
    cfg: FitConfig,
    p: Seq<Real>,
    heat: Seq<char>,
)
    requires
        cfg.observations@.len() <= 0x10_0000_0000_0000,
        forall|j: int|
            0 <= j < cfg.observations@.len() && is_plain(
                #[trigger] cfg.observations@[j],
                Some(heat),
            ) ==> {
                let o = cfg.observations@[j];
                let m = mean_log_life_of(
                    cfg.kind,
                    p,
                    o.temp_k,
                    o.stress,
                    scale_of(math, cfg.observations@),
                );
                o.y_time.finite() && fle(m, o.y_time)
            },
    ensures
        fle(lit(ZERO), heat_mean(math, cfg, p, heat)),
{
    let obs = cfg.observations@;
    let s = scale_of(math, obs);
    let xs = residuals_of(cfg.kind, s, obs, p, Some(heat), obs.len());
    lemma_residuals(math, cfg, p, heat, obs.len());
    lemma_sum_sign(xs, xs.len());
    let n: int = if xs.len() == 0 {
        1
    } else {
        xs.len() as int
    };
    lemma_counted(n);
    law_quotient_monotone(fsum(xs, xs.len()), fsum(xs, xs.len()), fint(n));
}

proof fn lemma_counted(n: int)
    requires
        0 < n <= 0x10_0000_0000_0000,
    ensures
        flt(lit(ZERO), fint(n)),
        fint(n).finite(),
{
    let q = one_quanta();
    law_count_near(n);
    lemma_pow2_pos(ONE_EXPONENT as nat);
    assert(mag(0) == 0);
    assert(q <= n * q) by (nonlinear_arith)
        requires
            0 < n,
            0 < q,
    ;
    if fint(n).size() == 0 {
        assert(fint(n).value() == 0);
    }
}

proof fn lemma_residuals<M: Fn(Call) -> Real>(
    math: M,
    cfg: FitConfig,
    p: Seq<Real>,
    heat: Seq<char>,
    k: nat,
)
    requires
        k <= cfg.observations@.len(),
        forall|j: int|
            0 <= j < cfg.observations@.len() && is_plain(
                #[trigger] cfg.observations@[j],
                Some(heat),
            ) ==> {
                let o = cfg.observations@[j];
                let m = mean_log_life_of(
                    cfg.kind,
                    p,
                    o.temp_k,
                    o.stress,
                    scale_of(math, cfg.observations@),
                );
                o.y_time.finite() && fle(m, o.y_time)
            },
    ensures
        ({
            let obs = cfg.observations@;
            let xs = residuals_of(cfg.kind, scale_of(math, obs), obs, p, Some(heat), k);
            xs.len() <= k && forall|j: int| 0 <= j < xs.len() ==> fle(lit(ZERO), #[trigger] xs[j])
        }),
    decreases k,
{
    if k > 0 {
        lemma_residuals(math, cfg, p, heat, (k - 1) as nat);
        let o = cfg.observations@[k - 1];
        if is_plain(o, Some(heat)) {
            law_difference_not_negative(
                mean_log_life_of(
                    cfg.kind,
                    p,
                    o.temp_k,
                    o.stress,
                    scale_of(math, cfg.observations@),
                ),
                o.y_time,
            );
        }
    }
}

proof fn lemma_sum_sign(xs: Seq<Real>, k: nat)
    requires
        k <= xs.len(),
        forall|j: int| 0 <= j < xs.len() ==> fle(lit(ZERO), #[trigger] xs[j]),
    ensures
        fle(lit(ZERO), fsum(xs, k)),
    decreases k,
{
    if k > 0 {
        lemma_sum_sign(xs, (k - 1) as nat);
        let a = fsum(xs, (k - 1) as nat);
        law_sums_ordered(lit(ZERO), a, lit(ZERO), xs[k - 1]);
    }
}

/// A search starts with a spread no less than the root of the least variance.
pub proof fn law_start_spread_is_held<M: Fn(Call) -> Real>(math: M, cfg: FitConfig)
    requires
        is_faithful(math),
        is_config(cfg),
    ensures
        fle(
            fmul(answer(math, Call::Ln(lit(LEAST_VARIANCE))), lit(HALF)),
            log_spread(cfg, start_of(math, cfg)),
        ),
{
    let free = free_count(cfg, cfg.heats@.len());
    let raw = padded(math, curve_start(math, cfg), free);
    let p = physical_of(math, cfg.kind, raw, hottest(cfg.observations@));
    let biased = with_biases(math, cfg, p, raw, cfg.heats@.len());
    let r = full_residuals(math, cfg, p, biased, cfg.observations@.len());
    let v = fmax(mean_of(squares_from(r, mean_of(r))), lit(LEAST_VARIANCE));
    assert(fle(lit(LEAST_VARIANCE), v));
    law_scaling_monotone(
        answer(math, Call::Ln(lit(LEAST_VARIANCE))),
        answer(math, Call::Ln(v)),
        lit(HALF),
    );
    lemma_with_biases(math, cfg, p, raw, cfg.heats@.len());
}

/// The spreads by which temperatures and stresses are scaled are no less than 1, and no less
/// than a number whose square the mean squared distance from the centre holds.
pub proof fn law_scale_is_held<M: Fn(Call) -> Real>(math: M, obs: Seq<Obs>, x: Real)
    requires
        takes_roots(math),
        of_ordinary_size(x),
    ensures
        ({
            let s = scale_of(math, obs);
            let t = squares_from(temps_of(points_of(obs)), s.t0);
            let u = squares_from(stresses_of(points_of(obs)), s.s0);
            &&& fle(lit(ONE), s.td) && fle(lit(ONE), s.sd)
            &&& fle(fmul(x, x), mean_of(t)) ==> fle(x, s.td)
            &&& fle(fmul(x, x), mean_of(u)) ==> fle(x, s.sd)
            &&& fle(lit(ONE), x) && fle(lit(ZERO), mean_of(t)) && fle(mean_of(t), fmul(x, x))
                ==> fle(s.td, x)
            &&& fle(lit(ONE), x) && fle(lit(ZERO), mean_of(u)) && fle(mean_of(u), fmul(x, x))
                ==> fle(s.sd, x)
        }),
{
    let s = scale_of(math, obs);
    lemma_deviation(math, mean_of(squares_from(temps_of(points_of(obs)), s.t0)), x);
    lemma_deviation(math, mean_of(squares_from(stresses_of(points_of(obs)), s.s0)), x);
}

proof fn lemma_deviation<M: Fn(Call) -> Real>(math: M, v: Real, x: Real)
    requires
        takes_roots(math),
        of_ordinary_size(x),
    ensures
        ({
            let d = fmax(answer(math, Call::Sqrt(v)), lit(ONE));
            &&& fle(lit(ONE), d)
            &&& fle(fmul(x, x), v) ==> fle(x, d)
            &&& fle(lit(ONE), x) && fle(lit(ZERO), v) && fle(v, fmul(x, x)) ==> fle(d, x)
        }),
{
    lemma_square_of_size(x);
    assert(answer(math, Call::Sqrt(fmul(x, x))) == x);
    let r = answer(math, Call::Sqrt(v));
    assert(fle(fmul(x, x), v) ==> fle(x, r));
}

} // verus!
