//! Where the search for the parameters starts: least squares on the fractured samples of
//! constant load.
use vstd::prelude::*;
use crate::host::{answer, ask, is_math, Call};
use crate::linalg::{mean, mean_of, ols, ols_of};
use crate::models::{initial_of, initial_raw, mean_log_life, mean_log_life_of, n_base, physical_of,
    ModelKind, Scale, B2_MARGIN, LM_C};
use crate::number::{fmax, fmin, fneg, lit, Real};
use crate::number::arith::{fadd, fdiv, fmul, fsub};
use crate::number::consts::{HALF, ONE, ZERO};
use crate::simplex::rows;
use crate::stats::{FitConfig, Obs, ObsKind};
use crate::stats::workspace::{bias_of, dimensions, free_count, free_of, heat_at, hottest,
    is_config, lemma_dimensions, lemma_free_count, scale_of, squared_distances, squares_from,
    Workspace};
use crate::text::{lemma_index_in, position, same, views};

verus! {

/// 0.1, the spread from which a search starts.
pub const START_SPREAD: u64 = 0x3fb9_9999_9999_999a;

/// 0.0064, the least variance from which a search starts.
pub const LEAST_VARIANCE: u64 = 0x3f7a_36e2_eb1c_432d;

/// 1e-3
pub const LEAST_TARGET: u64 = 0x3f50_624d_d2f1_a9fc;

/// -1e-3
pub const GREATEST_QUADRATIC: u64 = 0xbf50_624d_d2f1_a9fc;

/// A fractured sample of constant load, of the given heat where one is given.
pub open spec fn is_plain(o: Obs, heat: Option<Seq<char>>) -> bool {
    !o.variable && o.kind == ObsKind::Exact && match heat {
        Some(h) => o.heat@ == h,
        None => true,
    }
}

/// The regressors of an observation.
pub open spec fn design_row(kind: ModelKind, scale: Scale, o: Obs) -> Seq<Real> {
    match kind {
        ModelKind::LarsonMiller => seq![lit(ONE), o.stress, o.y_time],
        ModelKind::Custom => {
            let sn = fdiv(fsub(o.stress, scale.s0), scale.sd);
            let tn = fdiv(fsub(o.temp_k, scale.t0), scale.td);
            seq![lit(ONE), sn, fmul(sn, sn), tn, fmul(tn, tn)]
        },
    }
}

/// What is regressed on them.
pub open spec fn design_target(kind: ModelKind, o: Obs) -> Real {
    match kind {
        ModelKind::LarsonMiller => fmul(o.temp_k, fadd(o.y_time, lit(LM_C))),
        ModelKind::Custom => o.y_time,
    }
}

/// The regression on the first `k` observations.
pub open spec fn design_of(
    kind: ModelKind,
    scale: Scale,
    obs: Seq<Obs>,
    k: nat,
) -> (Seq<Seq<Real>>, Seq<Real>)
    decreases k,
{
    if k == 0 {
        (Seq::empty(), Seq::empty())
    } else {
        let (x, y) = design_of(kind, scale, obs, (k - 1) as nat);
        let o = obs[k - 1];
        if is_plain(o, None) {
            (x.push(design_row(kind, scale, o)), y.push(design_target(kind, o)))
        } else {
            (x, y)
        }
    }
}

fn row_for(kind: ModelKind, scale: &Scale, o: &Obs) -> (r: Vec<Real>)
    ensures
        r@ == design_row(kind, *scale, *o),
        r@.len() == n_base(kind),
{
    match kind {
        ModelKind::LarsonMiller => vec![lit(ONE), o.stress, o.y_time],
        ModelKind::Custom => {
            let sn: Real = o.stress.minus(scale.s0).over(scale.sd);
            let tn: Real = o.temp_k.minus(scale.t0).over(scale.td);
            vec![lit(ONE), sn, sn.times(sn), tn, tn.times(tn)]
        },
    }
}

fn target_for(kind: ModelKind, o: &Obs) -> (r: Real)
    ensures
        r == design_target(kind, *o),
{
    match kind {
        ModelKind::LarsonMiller => o.temp_k.times(o.y_time.plus(lit(LM_C))),
        ModelKind::Custom => o.y_time,
    }
}

fn design(kind: ModelKind, scale: &Scale, obs: &Vec<Obs>) -> (r: (Vec<Vec<Real>>, Vec<Real>))
    ensures
        (rows(r.0@), r.1@) == design_of(kind, *scale, obs@, obs@.len()),
        r.0@.len() == r.1@.len(),
        forall|i: int| 0 <= i < r.0@.len() ==> (#[trigger] r.0@[i])@.len() == n_base(kind),
{
    let mut x: Vec<Vec<Real>> = Vec::new();
    let mut y: Vec<Real> = Vec::new();
    proof {
        assert(rows(x@) =~= Seq::empty());
    }
    let mut i: usize = 0;
    while i < obs.len()
        invariant
            i <= obs@.len(),
            (rows(x@), y@) == design_of(kind, *scale, obs@, i as nat),
            x@.len() == y@.len(),
            forall|i: int| 0 <= i < x@.len() ==> (#[trigger] x@[i])@.len() == n_base(kind),
        decreases obs@.len() - i,
    {
        let o: &Obs = &obs[i];
        if !o.variable && o.kind == ObsKind::Exact {
            let row: Vec<Real> = row_for(kind, scale, o);
            let ghost before = rows(x@);
            y.push(target_for(kind, o));
            x.push(row);
            proof {
                assert(rows(x@) =~= before.push(row@));
            }
        }
        i = i + 1;
    }
    (x, y)
}

/// The unconstrained value whose softplus is `v`.
pub open spec fn unsoftened<M: Fn(Call) -> Real>(math: M, v: Real) -> Real {
    fadd(v, answer(math, Call::Ln(fsub(lit(ONE), answer(math, Call::Exp(fneg(v)))))))
}

fn unsoften<M: Fn(Call) -> Real>(math: &M, v: Real) -> (r: Real)
    requires
        is_math(*math),
    ensures
        r == unsoftened(*math, v),
{
    v.plus(ask(math, Call::Ln(lit(ONE).minus(ask(math, Call::Exp(v.negated()))))))
}

/// The unconstrained quadratic term for a coefficient, which is held below zero.
pub open spec fn unquadratic<M: Fn(Call) -> Real>(math: M, c: Real) -> Real {
    let v = fmin(c, lit(GREATEST_QUADRATIC));
    fadd(fneg(v), answer(math, Call::Ln(fsub(lit(ONE), answer(math, Call::Exp(v))))))
}

fn quadratic_for<M: Fn(Call) -> Real>(math: &M, c: Real) -> (r: Real)
    requires
        is_math(*math),
    ensures
        r == unquadratic(*math, c),
{
    let v: Real = c.min(lit(GREATEST_QUADRATIC));
    v.negated().plus(ask(math, Call::Ln(lit(ONE).minus(ask(math, Call::Exp(v))))))
}

/// The unconstrained values for regression coefficients.
pub open spec fn seeded<M: Fn(Call) -> Real>(
    math: M,
    kind: ModelKind,
    temp_max_k: Real,
    p: Seq<Real>,
) -> Seq<Real> {
    match kind {
        ModelKind::LarsonMiller => seq![
            p[0],
            p[1],
            unsoftened(
                math,
                fmax(fsub(fsub(p[2], temp_max_k), lit(B2_MARGIN)), lit(LEAST_TARGET)),
            ),
        ],
        ModelKind::Custom => seq![p[0], p[1], unquadratic(math, p[2]), p[3], unquadratic(math, p[4])],
    }
}

fn seed<M: Fn(Call) -> Real>(math: &M, kind: ModelKind, temp_max_k: Real, p: &Vec<Real>) -> (r: Vec<Real>)
    requires
        is_math(*math),
        p@.len() == n_base(kind),
    ensures
        r@ == seeded(*math, kind, temp_max_k, p@),
        r@.len() == n_base(kind),
{
    match kind {
        ModelKind::LarsonMiller => {
            let target: Real = p[2].minus(temp_max_k).minus(lit(B2_MARGIN)).max(lit(LEAST_TARGET));
            vec![p[0], p[1], unsoften(math, target)]
        },
        ModelKind::Custom => vec![
            p[0],
            p[1],
            quadratic_for(math, p[2]),
            p[3],
            quadratic_for(math, p[4]),
        ],
    }
}

pub open spec fn zeros(n: nat) -> Seq<Real> {
    Seq::new(n, |i: int| lit(ZERO))
}

/// Values of the curve, zero biases and the starting spread.
pub open spec fn padded<M: Fn(Call) -> Real>(math: M, base: Seq<Real>, free: nat) -> Seq<Real> {
    (base + zeros(free)).push(answer(math, Call::Ln(lit(START_SPREAD))))
}

pub fn pad<M: Fn(Call) -> Real>(math: &M, base: Vec<Real>, free: usize) -> (r: Vec<Real>)
    requires
        is_math(*math),
    ensures
        r@ == padded(*math, base@, free as nat),
        r@.len() == base@.len() + free + 1,
{
    let ghost given = base@;
    let mut out: Vec<Real> = base;
    let mut i: usize = 0;
    while i < free
        invariant
            i <= free,
            out@ == given + zeros(i as nat),
        decreases free - i,
    {
        out.push(lit(ZERO));
        proof {
            assert(out@ =~= given + zeros((i + 1) as nat));
        }
        i = i + 1;
    }
    out.push(ask(math, Call::Ln(lit(START_SPREAD))));
    out
}

/// The second place from which a search starts, which reads nothing of the observations.
pub open spec fn plain_start<M: Fn(Call) -> Real>(math: M, cfg: FitConfig) -> Seq<Real> {
    padded(math, initial_of(cfg.kind), free_count(cfg, cfg.heats@.len()))
}

/// The values of the curve by least squares, where there are enough observations.
pub open spec fn curve_start<M: Fn(Call) -> Real>(math: M, cfg: FitConfig) -> Seq<Real> {
    let obs = cfg.observations@;
    let (x, y) = design_of(cfg.kind, scale_of(math, obs), obs, obs.len());
    if x.len() == 0 {
        initial_of(cfg.kind)
    } else {
        match ols_of(x, y) {
            Some(p) => seeded(math, cfg.kind, hottest(obs), p),
            None => initial_of(cfg.kind),
        }
    }
}

/// How far the lives of the plain observations among the first `k` lie from the curve.
pub open spec fn residuals_of(
    kind: ModelKind,
    scale: Scale,
    obs: Seq<Obs>,
    p: Seq<Real>,
    heat: Option<Seq<char>>,
    k: nat,
) -> Seq<Real>
    decreases k,
{
    if k == 0 {
        Seq::empty()
    } else {
        let before = residuals_of(kind, scale, obs, p, heat, (k - 1) as nat);
        let o = obs[k - 1];
        if is_plain(o, heat) {
            before.push(fsub(o.y_time, mean_log_life_of(kind, p, o.temp_k, o.stress, scale)))
        } else {
            before
        }
    }
}

/// The mean residual of one heat.
pub open spec fn heat_mean<M: Fn(Call) -> Real>(
    math: M,
    cfg: FitConfig,
    p: Seq<Real>,
    heat: Seq<char>,
) -> Real {
    let obs = cfg.observations@;
    mean_of(residuals_of(cfg.kind, scale_of(math, obs), obs, p, Some(heat), obs.len()))
}

fn mean_residual<M: Fn(Call) -> Real>(math: &M, ws: &Workspace, p: &Vec<Real>, heat: &str) -> (r: Real)
    requires
        ws.built(*math),
        p@.len() == n_base(ws.cfg.kind),
    ensures
        r == heat_mean(*math, *ws.cfg, p@, heat@),
{
    let mut out: Vec<Real> = Vec::new();
    let mut i: usize = 0;
    while i < ws.cfg.observations.len()
        invariant
            p@.len() == n_base(ws.cfg.kind),
            i <= ws.cfg.observations@.len(),
            out@ == residuals_of(
                ws.cfg.kind,
                ws.scale,
                ws.cfg.observations@,
                p@,
                Some(heat@),
                i as nat,
            ),
        decreases ws.cfg.observations@.len() - i,
    {
        let o: &Obs = &ws.cfg.observations[i];
        if !o.variable && o.kind == ObsKind::Exact && same(o.heat.as_str(), heat) {
            out.push(
                o.y_time.minus(mean_log_life(ws.cfg.kind, p, o.temp_k, o.stress, &ws.scale)),
            );
        }
        i = i + 1;
    }
    mean(&out)
}

/// The mean residual of the reference heat.
pub fn resid_ref<M: Fn(Call) -> Real>(math: &M, ws: &Workspace, pp: &Vec<Real>) -> (r: Real)
    requires
        ws.built(*math),
        pp@.len() == n_base(ws.cfg.kind),
    ensures
        r == heat_mean(*math, *ws.cfg, pp@, ws.cfg.reference_heat@),
{
    mean_residual(math, ws, pp, ws.cfg.reference_heat.as_str())
}

/// `raw` with the free biases of the first `k` heats at their mean residuals over the
/// reference.
pub open spec fn with_biases<M: Fn(Call) -> Real>(
    math: M,
    cfg: FitConfig,
    p: Seq<Real>,
    raw: Seq<Real>,
    k: nat,
) -> Seq<Real>
    decreases k,
{
    if k == 0 {
        raw
    } else {
        let before = with_biases(math, cfg, p, raw, (k - 1) as nat);
        if free_of(cfg, k - 1) >= 0 {
            let rr = heat_mean(math, cfg, p, cfg.reference_heat@);
            before.update(
                n_base(cfg.kind) as int + free_of(cfg, k - 1),
                fsub(
                    heat_mean(math, cfg, p, cfg.heats@[k - 1]@),
                    if rr.nan() {
                        lit(ZERO)
                    } else {
                        rr
                    },
                ),
            )
        } else {
            before
        }
    }
}

/// How far the plain observations among the first `k` lie from curve and bias.
pub open spec fn full_residuals<M: Fn(Call) -> Real>(
    math: M,
    cfg: FitConfig,
    p: Seq<Real>,
    raw: Seq<Real>,
    k: nat,
) -> Seq<Real>
    decreases k,
{
    if k == 0 {
        Seq::empty()
    } else {
        let before = full_residuals(math, cfg, p, raw, (k - 1) as nat);
        let o = cfg.observations@[k - 1];
        if is_plain(o, None) {
            before.push(
                fsub(
                    fsub(
                        o.y_time,
                        mean_log_life_of(
                            cfg.kind,
                            p,
                            o.temp_k,
                            o.stress,
                            scale_of(math, cfg.observations@),
                        ),
                    ),
                    bias_of(cfg, heat_at(cfg, o.heat@), raw),
                ),
            )
        } else {
            before
        }
    }
}

/// The place from which a search starts.
pub open spec fn start_of<M: Fn(Call) -> Real>(math: M, cfg: FitConfig) -> Seq<Real> {
    let free = free_count(cfg, cfg.heats@.len());
    let raw = padded(math, curve_start(math, cfg), free);
    let p = physical_of(math, cfg.kind, raw, hottest(cfg.observations@));
    let biased = with_biases(math, cfg, p, raw, cfg.heats@.len());
    let r = full_residuals(math, cfg, p, biased, cfg.observations@.len());
    let var = mean_of(squares_from(r, mean_of(r)));
    biased.update(
        n_base(cfg.kind) as int + free,
        fmul(answer(math, Call::Ln(fmax(var, lit(LEAST_VARIANCE)))), lit(HALF)),
    )
}

fn curve<M: Fn(Call) -> Real>(math: &M, ws: &Workspace) -> (r: Vec<Real>)
    requires
        is_math(*math),
        ws.built(*math),
    ensures
        r@ == curve_start(*math, *ws.cfg),
        r@.len() == n_base(ws.cfg.kind),
{
    let kind: ModelKind = ws.cfg.kind;
    let (x, y) = design(kind, &ws.scale, &ws.cfg.observations);
    if x.len() == 0 {
        return initial_raw(kind);
    }
    match ols(&x, &y) {
        Some(p) => seed(math, kind, ws.temp_max_k, &p),
        None => initial_raw(kind),
    }
}

fn residuals<M: Fn(Call) -> Real>(
    math: &M,
    ws: &Workspace,
    p: &Vec<Real>,
    raw: &Vec<Real>,
) -> (r: Vec<Real>)
    requires
        ws.built(*math),
        is_config(*ws.cfg),
        p@.len() == n_base(ws.cfg.kind),
        raw@.len() == dimensions(*ws.cfg),
    ensures
        r@ == full_residuals(*math, *ws.cfg, p@, raw@, ws.cfg.observations@.len()),
{
    let mut out: Vec<Real> = Vec::new();
    let mut i: usize = 0;
    while i < ws.cfg.observations.len()
        invariant
            ws.built(*math),
            is_config(*ws.cfg),
            p@.len() == n_base(ws.cfg.kind),
            raw@.len() == dimensions(*ws.cfg),
            i <= ws.cfg.observations@.len(),
            out@ == full_residuals(*math, *ws.cfg, p@, raw@, i as nat),
        decreases ws.cfg.observations@.len() - i,
    {
        let o: &Obs = &ws.cfg.observations[i];
        if !o.variable && o.kind == ObsKind::Exact {
            proof {
                lemma_index_in(views(ws.cfg.heats@), o.heat@);
            }
            let hi: usize = position(&ws.cfg.heats, o.heat.as_str()).unwrap();
            out.push(
                o.y_time.minus(mean_log_life(ws.cfg.kind, p, o.temp_k, o.stress, &ws.scale)).minus(
                    ws.heat_bias(hi, raw, math),
                ),
            );
        }
        i = i + 1;
    }
    out
}

pub fn initial_values<M: Fn(Call) -> Real>(math: &M, ws: &Workspace) -> (r: Vec<Real>)
    requires
        is_math(*math),
        ws.built(*math),
        is_config(*ws.cfg),
    ensures
        r@ == start_of(*math, *ws.cfg),
        r@.len() == dimensions(*ws.cfg),
{
    proof {
        lemma_dimensions(*ws.cfg);
    }
    let base: Vec<Real> = curve(math, ws);
    let mut raw: Vec<Real> = pad(math, base, ws.nfree_heats);
    let ghost raw0 = raw@;
    let pp: Vec<Real> = ws.phys_params(math, &raw);
    let ref_r: Real = resid_ref(math, ws, &pp);
    let rr: Real = if ref_r.is_nan() { lit(ZERO) } else { ref_r };
    let mut i: usize = 0;
    while i < ws.cfg.heats.len()
        invariant
            ws.built(*math),
            is_config(*ws.cfg),
            ws.nfree_heats <= i32::MAX,
            pp@.len() == n_base(ws.cfg.kind),
            raw0.len() == dimensions(*ws.cfg),
            i <= ws.cfg.heats@.len(),
            raw@ == with_biases(*math, *ws.cfg, pp@, raw0, i as nat),
            raw@.len() == raw0.len(),
            rr == ({
                let q = heat_mean(*math, *ws.cfg, pp@, ws.cfg.reference_heat@);
                if q.nan() {
                    lit(ZERO)
                } else {
                    q
                }
            }),
        decreases ws.cfg.heats@.len() - i,
    {
        proof {
            lemma_free_count(*ws.cfg, i as nat, ws.cfg.heats@.len());
        }
        let j: i32 = ws.free_heat_of[i];
        if j >= 0 {
            let r: Real = mean_residual(math, ws, &pp, ws.cfg.heats[i].as_str());
            raw.set(ws.nb + j as usize, r.minus(rr));
        }
        i = i + 1;
    }
    let resid: Vec<Real> = residuals(math, ws, &pp, &raw);
    let m: Real = mean(&resid);
    let var: Real = mean(&squared_distances(&resid, m));
    let at: usize = ws.sigma_index();
    raw.set(at, ask(math, Call::Ln(var.max(lit(LEAST_VARIANCE)))).times(lit(HALF)));
    raw
}

pub proof fn lemma_start_len<M: Fn(Call) -> Real>(math: M, cfg: FitConfig)
    requires
        is_config(cfg),
    ensures
        start_of(math, cfg).len() == dimensions(cfg),
        plain_start(math, cfg).len() == dimensions(cfg),
{
    let raw = padded(math, curve_start(math, cfg), free_count(cfg, cfg.heats@.len()));
    let p = physical_of(math, cfg.kind, raw, hottest(cfg.observations@));
    lemma_with_biases(math, cfg, p, raw, cfg.heats@.len());
}

pub proof fn lemma_with_biases<M: Fn(Call) -> Real>(
    math: M,
    cfg: FitConfig,
    p: Seq<Real>,
    raw: Seq<Real>,
    k: nat,
)
    requires
        raw.len() == dimensions(cfg),
        k <= cfg.heats@.len(),
    ensures
        with_biases(math, cfg, p, raw, k).len() == raw.len(),
    decreases k,
{
    if k > 0 {
        lemma_with_biases(math, cfg, p, raw, (k - 1) as nat);
        lemma_free_count(cfg, (k - 1) as nat, cfg.heats@.len());
    }
}

} // verus!
