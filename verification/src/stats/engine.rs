//! The fit: the search from two places, the covariance of what it finds, and the report.
use vstd::prelude::*;
use crate::host::{answer, ask, is_math, is_printer, print, printed, Call, Print};
use crate::linalg::{copy_rows, hessian, hessian_of, inverse_of, invert_symmetric, square};
use crate::models::{mean_log_life, mean_log_life_of, meta_of, meta_views, n_base, param_meta,
    physical_of, ModelKind, LM_C};
use crate::number::{fabs, feq, fle, flt, fmax, fneg, lit, Real};
use crate::number::arith::{fadd, fmul};
use crate::number::consts::{TEN, TWO, ZERO};
use crate::number::convert::fint;
use crate::simplex::{best_of, classic_nudge, classic_run, copy, law_classic_search_descends, rows,
    search_classic, start_shape};
use crate::stats::{FitConfig, FitOutput, FitResult, Internal, Obs, ObsKind, ParamOut, ResidualOut};
use crate::stats::start::{initial_values, lemma_start_len, pad, plain_start, start_of};
use crate::stats::workspace::{bias_of, dimensions, eval_all, eval_of, fixed_names, fixed_of,
    free_of, heat_at, hottest, is_config, is_free, lemma_dimensions, lemma_free_count, log_spread,
    scale_of, PerObs, Workspace};
use crate::text::{cat, index_in, lemma_index_in, position, same, views};
use crate::models::initial_raw;

verus! {

/// 1e12, which stands for what is not finite.
pub const FAR: u64 = 0x426d_1a94_a200_0000;

/// 1e-6, the least weight of a ridge.
pub const LEAST_WEIGHT: u64 = 0x3eb0_c6f7_a0b5_ed8d;

/// 1e-8, what is always added to the diagonal.
pub const NUDGE: u64 = 0x3e45_798e_e230_8c3a;

/// 1e-4, the first ridge.
pub const FIRST_RIDGE: u64 = 0x3f1a_36e2_eb1c_432d;

/// 1e6, the variance of what cannot be told.
pub const UNKNOWN: u64 = 0x412e_8480_0000_0000;

/// The most steps of a search.
pub const STEPS: usize = 4000;

/// The most ridges that are tried.
pub const RIDGES: usize = 12;

// ---- the objective ----

/// The penalised negative log-likelihood, with a large number for what is not finite.
pub open spec fn objective_of<M: Fn(Call) -> Real>(math: M, cfg: FitConfig) -> spec_fn(Seq<Real>) -> Real {
    |x: Seq<Real>|
        {
            let v = eval_of(math, cfg, x).0;
            if v.finite() {
                v
            } else {
                lit(FAR)
            }
        }
}

pub fn objective<M: Fn(Call) -> Real>(math: &M, ws: &Workspace, x: &Vec<Real>) -> (r: Real)
    requires
        is_math(*math),
        ws.built(*math),
        is_config(*ws.cfg),
        x@.len() == dimensions(*ws.cfg),
    ensures
        r == objective_of(*math, *ws.cfg)(x@),
{
    let (v, _) = eval_all(math, ws, x);
    if v.is_finite() {
        v
    } else {
        lit(FAR)
    }
}

/// Where the search from `x` ends, the value there, and whether it has converged.
pub open spec fn found_from<M: Fn(Call) -> Real>(
    math: M,
    cfg: FitConfig,
    x: Seq<Real>,
) -> (Seq<Real>, Real, bool) {
    let f = objective_of(math, cfg);
    let (end, met) = classic_run(f, start_shape(f, x, classic_nudge()), x.len(), STEPS as nat);
    let b = best_of(end.fv, x.len() + 1);
    (end.xs[b], end.fv[b], met)
}

/// The better end of the two searches, the first where they are equal.
pub open spec fn found<M: Fn(Call) -> Real>(math: M, cfg: FitConfig) -> (Seq<Real>, Real, bool) {
    let one = found_from(math, cfg, start_of(math, cfg));
    let two = found_from(math, cfg, plain_start(math, cfg));
    if flt(two.1, one.1) {
        two
    } else {
        one
    }
}

fn search<M: Fn(Call) -> Real>(math: &M, ws: &Workspace, x: &Vec<Real>) -> (r: (Vec<Real>, Real, bool))
    requires
        is_math(*math),
        ws.built(*math),
        is_config(*ws.cfg),
        x@.len() == dimensions(*ws.cfg),
    ensures
        (r.0@, r.1, r.2) == found_from(*math, *ws.cfg, x@),
        r.0@.len() == x@.len(),
{
    proof {
        lemma_dimensions(*ws.cfg);
    }
    let n: usize = x.len();
    let ghost field = objective_of(*math, *ws.cfg);
    let f = |y: &Vec<Real>| -> (r: Real)
        requires y@.len() == n
        ensures r == field(y@)
    {
        objective(math, ws, y)
    };
    search_classic(&f, x, STEPS, Ghost(field))
}

fn curvatures<M: Fn(Call) -> Real>(math: &M, ws: &Workspace, x: &Vec<Real>, f0: Real) -> (r: Vec<Vec<Real>>)
    requires
        is_math(*math),
        ws.built(*math),
        is_config(*ws.cfg),
        x@.len() == dimensions(*ws.cfg),
    ensures
        rows(r@) == hessian_of(objective_of(*math, *ws.cfg), x@, f0),
        square(rows(r@), x@.len()),
{
    let n: usize = x.len();
    let ghost field = objective_of(*math, *ws.cfg);
    let f = |y: &Vec<Real>| -> (r: Real)
        requires y@.len() == n
        ensures r == field(y@)
    {
        objective(math, ws, y)
    };
    hessian(&f, x, f0, Ghost(field))
}

// ---- the covariance ----

/// The matrix with `ridge` times the weights of the diagonal, and a little more, added to
/// the diagonal.
pub open spec fn ridged(h: Seq<Seq<Real>>, ridge: Real) -> Seq<Seq<Real>> {
    Seq::new(
        h.len(),
        |i: int|
            h[i].update(
                i,
                fadd(
                    h[i][i],
                    fadd(fmul(ridge, fmax(fabs(h[i][i]), lit(LEAST_WEIGHT))), lit(NUDGE)),
                ),
            ),
    )
}

/// Whether every variance is above zero.
pub open spec fn positive_diagonal(m: Seq<Seq<Real>>) -> bool {
    forall|i: int| 0 <= i < m.len() ==> flt(lit(ZERO), #[trigger] m[i][i])
}

/// The covariance at the first of `k` ridges that gives positive variances.
pub open spec fn ridge_search(h: Seq<Seq<Real>>, ridge: Real, k: nat) -> Option<Seq<Seq<Real>>>
    decreases k,
{
    if k == 0 {
        None
    } else {
        let tried = inverse_of(ridged(h, ridge), true);
        if tried is Some && positive_diagonal(tried->0) {
            tried
        } else {
            ridge_search(
                h,
                if feq(ridge, lit(ZERO)) {
                    lit(FIRST_RIDGE)
                } else {
                    fmul(ridge, lit(TEN))
                },
                (k - 1) as nat,
            )
        }
    }
}

/// Large variances and no covariances, for what the data do not tell.
pub open spec fn unknown(n: nat) -> Seq<Seq<Real>> {
    Seq::new(
        n,
        |i: int|
            Seq::new(
                n,
                |j: int|
                    if i == j {
                        lit(UNKNOWN)
                    } else {
                        lit(ZERO)
                    },
            ),
    )
}

/// The covariance of the parameters from the curvatures at the minimum.
pub open spec fn covariance_of(h: Seq<Seq<Real>>) -> Seq<Seq<Real>> {
    match ridge_search(h, lit(ZERO), RIDGES as nat) {
        Some(m) => m,
        None => unknown(h.len()),
    }
}

fn add_ridge(h: &Vec<Vec<Real>>, ridge: Real) -> (r: Vec<Vec<Real>>)
    requires
        square(rows(h@), h@.len()),
    ensures
        rows(r@) == ridged(rows(h@), ridge),
        square(rows(r@), h@.len()),
{
    let n: usize = h.len();
    let mut out: Vec<Vec<Real>> = Vec::new();
    let mut i: usize = 0;
    while i < n
        invariant
            n == h@.len(),
            square(rows(h@), n as nat),
            i <= n,
            out@.len() == i,
            forall|k: int| 0 <= k < i ==> (#[trigger] out@[k])@ == ridged(rows(h@), ridge)[k],
        decreases n - i,
    {
        proof {
            assert(rows(h@)[i as int].len() == n);
        }
        let mut row: Vec<Real> = copy(&h[i]);
        let d: Real = h[i][i];
        row.set(i, d.plus(ridge.times(d.abs().max(lit(LEAST_WEIGHT))).plus(lit(NUDGE))));
        out.push(row);
        i = i + 1;
    }
    proof {
        assert(rows(out@) =~= ridged(rows(h@), ridge));
        assert forall|k: int| 0 <= k < n implies (#[trigger] rows(out@)[k]).len() == n by {
            assert(rows(h@)[k].len() == n);
        }
    }
    out
}

fn has_positive_diagonal(m: &Vec<Vec<Real>>) -> (r: bool)
    requires
        square(rows(m@), m@.len()),
    ensures
        r == positive_diagonal(rows(m@)),
{
    let mut i: usize = 0;
    while i < m.len()
        invariant
            square(rows(m@), m@.len()),
            i <= m@.len(),
            forall|k: int| 0 <= k < i ==> flt(lit(ZERO), #[trigger] rows(m@)[k][k]),
        decreases m@.len() - i,
    {
        proof {
            assert(rows(m@)[i as int].len() == m@.len());
        }
        if !lit(ZERO).lt(m[i][i]) {
            proof {
                assert(!flt(lit(ZERO), rows(m@)[i as int][i as int]));
            }
            return false;
        }
        i = i + 1;
    }
    true
}

fn unknown_rows(n: usize) -> (m: Vec<Vec<Real>>)
    ensures
        rows(m@) == unknown(n as nat),
{
    let mut m: Vec<Vec<Real>> = Vec::new();
    let mut i: usize = 0;
    while i < n
        invariant
            i <= n,
            m@.len() == i,
            forall|k: int| 0 <= k < i ==> (#[trigger] m@[k])@ == unknown(n as nat)[k],
        decreases n - i,
    {
        let mut row: Vec<Real> = Vec::new();
        let mut j: usize = 0;
        while j < n
            invariant
                i < n,
                j <= n,
                row@.len() == j,
                forall|k: int| 0 <= k < j ==> #[trigger] row@[k] == unknown(n as nat)[i as int][k],
            decreases n - j,
        {
            row.push(if i == j { lit(UNKNOWN) } else { lit(ZERO) });
            j = j + 1;
        }
        proof {
            assert(row@ =~= unknown(n as nat)[i as int]);
        }
        m.push(row);
        i = i + 1;
    }
    proof {
        assert(rows(m@) =~= unknown(n as nat));
    }
    m
}

pub fn covariance(h: &Vec<Vec<Real>>) -> (r: Vec<Vec<Real>>)
    requires
        square(rows(h@), h@.len()),
    ensures
        rows(r@) == covariance_of(rows(h@)),
        square(rows(r@), h@.len()),
{
    let mut ridge: Real = lit(ZERO);
    let mut left: usize = RIDGES;
    while left > 0
        invariant
            left <= RIDGES,
            square(rows(h@), h@.len()),
            ridge_search(rows(h@), lit(ZERO), RIDGES as nat) == ridge_search(
                rows(h@),
                ridge,
                left as nat,
            ),
        decreases left,
    {
        let trial: Vec<Vec<Real>> = add_ridge(h, ridge);
        match invert_symmetric(&trial) {
            Some(inv) => {
                if has_positive_diagonal(&inv) {
                    return inv;
                }
            },
            None => {},
        }
        ridge = if ridge.same(lit(ZERO)) { lit(FIRST_RIDGE) } else { ridge.times(lit(TEN)) };
        left = left - 1;
    }
    unknown_rows(h.len())
}

// ---- the report ----

pub open spec fn param_is(
    p: ParamOut,
    name: Seq<char>,
    value: Real,
    se: Option<Real>,
    fixed: bool,
    constraint: Seq<char>,
) -> bool {
    &&& p.name@ == name
    &&& p.value == value
    &&& p.se == se
    &&& p.fixed == fixed
    &&& p.constraint@ == constraint
}

/// The standard error of the `i`-th searched value.
pub open spec fn error_of<M: Fn(Call) -> Real>(math: M, cov: Seq<Seq<Real>>, i: int) -> Option<Real> {
    Some(answer(math, Call::Sqrt(cov[i][i])))
}

/// The number of parameters that are reported before those that are searched.
pub open spec fn offset_of(kind: ModelKind) -> int {
    if kind == ModelKind::LarsonMiller {
        1
    } else {
        0
    }
}

/// The report on the parameters of the curve.
pub open spec fn params_are<M: Fn(Call) -> Real>(
    math: M,
    kind: ModelKind,
    p: Seq<Real>,
    cov: Seq<Seq<Real>>,
    params: Seq<ParamOut>,
) -> bool {
    let meta = meta_of(kind);
    let off = offset_of(kind);
    &&& params.len() == off + n_base(kind)
    &&& kind == ModelKind::LarsonMiller ==> param_is(
        params[0],
        "C"@,
        lit(LM_C),
        None,
        true,
        meta[0].1,
    )
    &&& forall|i: int|
        off <= i < params.len() ==> param_is(
            #[trigger] params[i],
            meta[i].0,
            p[i - off],
            error_of(math, cov, i - off),
            false,
            meta[i].1,
        )
}

fn params_out<M: Fn(Call) -> Real>(
    math: &M,
    kind: ModelKind,
    p: &Vec<Real>,
    cov: &Vec<Vec<Real>>,
) -> (r: Vec<
    ParamOut,
>)
    requires
        is_math(*math),
        p@.len() == n_base(kind),
        cov@.len() >= n_base(kind),
        square(rows(cov@), cov@.len()),
    ensures
        params_are(*math, kind, p@, rows(cov@), r@),
{
    let meta: Vec<(String, String, bool)> = param_meta(kind);
    let ghost views = meta_views(meta@);
    proof {
        assert(views.len() == offset_of(kind) + n_base(kind));
    }
    let mut out: Vec<ParamOut> = Vec::new();
    let mut off: usize = 0;
    if kind == ModelKind::LarsonMiller {
        proof {
            assert(views.len() == meta@.len());
            assert(views[0].1 == meta@[0].1@);
        }
        out.push(
            ParamOut {
                name: "C".to_owned(),
                value: lit(LM_C),
                se: None,
                fixed: true,
                constraint: meta[0].1.clone(),
            },
        );
        off = 1;
    }
    let n: usize = n_base(kind);
    let mut k: usize = 0;
    while k < n
        invariant
            is_math(*math),
            n == n_base(kind),
            p@.len() == n,
            cov@.len() >= n,
            square(rows(cov@), cov@.len()),
            views == meta_views(meta@),
            views == meta_of(kind),
            off == offset_of(kind),
            k <= n,
            out@.len() == off + k,
            kind == ModelKind::LarsonMiller ==> param_is(
                out@[0],
                "C"@,
                lit(LM_C),
                None,
                true,
                views[0].1,
            ),
            forall|i: int|
                off <= i < out@.len() ==> param_is(
                    #[trigger] out@[i],
                    views[i].0,
                    p@[i - off],
                    error_of(*math, rows(cov@), i - off),
                    false,
                    views[i].1,
                ),
        decreases n - k,
    {
        proof {
            assert(views.len() == off + n);
            assert(views[off + k].0 == meta@[off + k].0@);
            assert(views[off + k].1 == meta@[off + k].1@);
            assert(rows(cov@)[k as int].len() == cov@.len());
        }
        out.push(
            ParamOut {
                name: meta[off + k].0.clone(),
                value: p[k],
                se: Some(ask(math, Call::Sqrt(cov[k][k]))),
                fixed: false,
                constraint: meta[off + k].1.clone(),
            },
        );
        k = k + 1;
    }
    out
}

/// What is said of a bias under shrinkage.
pub open spec fn shrink_note<S: Fn(Print) -> String>(show: S, tau: Real) -> Seq<char> {
    "层级收缩 τ="@ + printed(show, Print::Fixed3(tau)) + " dex"@
}

/// The report on the bias of the `i`-th heat.
pub open spec fn heat_param_is<M: Fn(Call) -> Real, S: Fn(Print) -> String>(
    math: M,
    show: S,
    cfg: FitConfig,
    raw: Seq<Real>,
    cov: Seq<Seq<Real>>,
    i: int,
    p: ParamOut,
) -> bool {
    let h = cfg.heats@[i]@;
    let at = n_base(cfg.kind) as int + free_of(cfg, i);
    if h == cfg.reference_heat@ {
        param_is(p, h, lit(ZERO), None, true, "参考炉次，偏置固定为 0"@)
    } else if is_free(cfg, h) {
        param_is(p, h, raw[at], error_of(math, cov, at), false, shrink_note(show, cfg.shrink_tau))
    } else {
        param_is(
            p,
            h,
            fixed_of(cfg, i, cfg.fixed_heats@.len()),
            None,
            true,
            "用户指定固定偏置"@,
        )
    }
}

/// The place of every heat among the free biases.
pub open spec fn index_is(cfg: FitConfig, index: Seq<(String, i32)>) -> bool {
    &&& index.len() == cfg.heats@.len()
    &&& forall|i: int|
        0 <= i < index.len() ==> (#[trigger] index[i]).0@ == cfg.heats@[i]@ && index[i].1 == free_of(
            cfg,
            i,
        )
}

fn heats_out<M: Fn(Call) -> Real, S: Fn(Print) -> String>(
    math: &M,
    show: &S,
    ws: &Workspace,
    raw: &Vec<Real>,
    cov: &Vec<Vec<Real>>,
) -> (r: (Vec<ParamOut>, Vec<(String, i32)>))
    requires
        is_math(*math),
        is_printer(*show),
        ws.built(*math),
        raw@.len() == dimensions(*ws.cfg),
        square(rows(cov@), raw@.len()),
    ensures
        r.0@.len() == ws.cfg.heats@.len(),
        forall|i: int|
            0 <= i < r.0@.len() ==> heat_param_is(
                *math,
                *show,
                *ws.cfg,
                raw@,
                rows(cov@),
                i,
                #[trigger] r.0@[i],
            ),
        index_is(*ws.cfg, r.1@),
{
    let mut biases: Vec<ParamOut> = Vec::new();
    let mut index: Vec<(String, i32)> = Vec::new();
    let cfg: &FitConfig = ws.cfg;
    proof {
        lemma_dimensions(*cfg);
    }
    let mut i: usize = 0;
    while i < cfg.heats.len()
        invariant
            is_math(*math),
            is_printer(*show),
            ws.built(*math),
            ws.cfg == cfg,
            ws.nb <= 5,
            ws.nfree_heats <= i32::MAX,
            raw@.len() == dimensions(*cfg),
            square(rows(cov@), raw@.len()),
            i <= cfg.heats@.len(),
            biases@.len() == i,
            index@.len() == i,
            forall|k: int|
                0 <= k < i ==> heat_param_is(
                    *math,
                    *show,
                    *cfg,
                    raw@,
                    rows(cov@),
                    k,
                    #[trigger] biases@[k],
                ),
            forall|k: int|
                0 <= k < i ==> (#[trigger] index@[k]).0@ == cfg.heats@[k]@ && index@[k].1 == free_of(
                    *cfg,
                    k,
                ),
        decreases cfg.heats@.len() - i,
    {
        let h: &String = &cfg.heats[i];
        let idx: i32 = ws.free_heat_of[i];
        index.push((h.clone(), idx));
        proof {
            lemma_free_count(*cfg, i as nat, cfg.heats@.len());
            assert(rows(cov@).len() == raw@.len());
        }
        if same(h.as_str(), cfg.reference_heat.as_str()) {
            biases.push(
                ParamOut {
                    name: h.clone(),
                    value: lit(ZERO),
                    se: None,
                    fixed: true,
                    constraint: "参考炉次，偏置固定为 0".to_owned(),
                },
            );
        } else if idx >= 0 {
            let gi: usize = ws.nb + idx as usize;
            proof {
                assert(rows(cov@)[gi as int].len() == raw@.len());
            }
            let tau: String = print(show, Print::Fixed3(cfg.shrink_tau));
            let note: String = cat(cat("层级收缩 τ=", tau.as_str()).as_str(), " dex");
            biases.push(
                ParamOut {
                    name: h.clone(),
                    value: raw[gi],
                    se: Some(ask(math, Call::Sqrt(cov[gi][gi]))),
                    fixed: false,
                    constraint: note,
                },
            );
        } else {
            biases.push(
                ParamOut {
                    name: h.clone(),
                    value: ws.fixed_bias[i],
                    se: None,
                    fixed: true,
                    constraint: "用户指定固定偏置".to_owned(),
                },
            );
        }
        i = i + 1;
    }
    (biases, index)
}

/// The report on one observation. A censored one has no residual.
pub open spec fn residual_is<M: Fn(Call) -> Real>(
    math: M,
    cfg: FitConfig,
    p: Seq<Real>,
    raw: Seq<Real>,
    o: Obs,
    row: PerObs,
    r: ResidualOut,
) -> bool {
    &&& r.sample_id@ == o.sample_id@
    &&& r.heat@ == o.heat@
    &&& r.variable == o.variable
    &&& r.obs@ == (if o.kind == ObsKind::Exact {
        "exact"@
    } else {
        "censored"@
    })
    &&& r.fitted_log10 == (if o.variable {
        lit(ZERO)
    } else {
        fadd(
            mean_log_life_of(
                cfg.kind,
                p,
                o.temp_k,
                o.stress,
                scale_of(math, cfg.observations@),
            ),
            bias_of(cfg, heat_at(cfg, o.heat@), raw),
        )
    })
    &&& r.residual_dex == (if !o.variable && o.kind == ObsKind::Exact {
        Some(row.g)
    } else {
        None
    })
    &&& r.nll_contribution == row.nll
}

fn residuals_out<M: Fn(Call) -> Real>(
    math: &M,
    ws: &Workspace,
    p: &Vec<Real>,
    raw: &Vec<Real>,
    parts: &Vec<PerObs>,
) -> (r: Vec<ResidualOut>)
    requires
        ws.built(*math),
        is_config(*ws.cfg),
        p@.len() == n_base(ws.cfg.kind),
        raw@.len() == dimensions(*ws.cfg),
        parts@.len() <= ws.cfg.observations@.len(),
    ensures
        r@.len() == parts@.len(),
        forall|i: int|
            0 <= i < r@.len() ==> residual_is(
                *math,
                *ws.cfg,
                p@,
                raw@,
                ws.cfg.observations@[i],
                parts@[i],
                #[trigger] r@[i],
            ),
{
    let cfg: &FitConfig = ws.cfg;
    let mut out: Vec<ResidualOut> = Vec::new();
    let mut i: usize = 0;
    while i < parts.len()
        invariant
            ws.built(*math),
            is_config(*ws.cfg),
            ws.cfg == cfg,
            p@.len() == n_base(cfg.kind),
            raw@.len() == dimensions(*cfg),
            parts@.len() <= cfg.observations@.len(),
            i <= parts@.len(),
            out@.len() == i,
            forall|k: int|
                0 <= k < i ==> residual_is(
                    *math,
                    *cfg,
                    p@,
                    raw@,
                    cfg.observations@[k],
                    parts@[k],
                    #[trigger] out@[k],
                ),
        decreases parts@.len() - i,
    {
        let o: &Obs = &cfg.observations[i];
        let exact: bool = o.kind == ObsKind::Exact;
        let fitted: Real = if o.variable {
            lit(ZERO)
        } else {
            proof {
                lemma_index_in(views(cfg.heats@), o.heat@);
            }
            let hi: usize = position(&cfg.heats, o.heat.as_str()).unwrap();
            mean_log_life(cfg.kind, p, o.temp_k, o.stress, &ws.scale).plus(
                ws.heat_bias(hi, raw, math),
            )
        };
        out.push(
            ResidualOut {
                sample_id: o.sample_id.clone(),
                heat: o.heat.clone(),
                variable: o.variable,
                obs: if exact { "exact".to_owned() } else { "censored".to_owned() },
                fitted_log10: fitted,
                residual_dex: if !o.variable && exact { Some(parts[i].g) } else { None },
                nll_contribution: parts[i].nll,
            },
        );
        i = i + 1;
    }
    out
}

/// The ids of the observations.
pub open spec fn sample_ids(obs: Seq<Obs>) -> Seq<Seq<char>> {
    obs.map_values(|o: Obs| o.sample_id@)
}

fn ids_out(obs: &Vec<Obs>) -> (r: Vec<String>)
    ensures
        views(r@) == sample_ids(obs@),
{
    let mut out: Vec<String> = Vec::new();
    let mut i: usize = 0;
    while i < obs.len()
        invariant
            i <= obs@.len(),
            out@.len() == i,
            forall|k: int| 0 <= k < i ==> (#[trigger] out@[k])@ == obs@[k].sample_id@,
        decreases obs@.len() - i,
    {
        out.push(obs[i].sample_id.clone());
        i = i + 1;
    }
    proof {
        assert(views(out@) =~= sample_ids(obs@));
    }
    out
}

/// The name of a model in a report.
pub open spec fn model_name(kind: ModelKind) -> Seq<char> {
    match kind {
        ModelKind::LarsonMiller => "larson_miller"@,
        ModelKind::Custom => "custom"@,
    }
}

/// The report on a fit that ended at `x`, with value `f`.
pub open spec fn result_is<M: Fn(Call) -> Real, S: Fn(Print) -> String>(
    math: M,
    show: S,
    cfg: FitConfig,
    x: Seq<Real>,
    f: Real,
    met: bool,
    cov: Seq<Seq<Real>>,
    r: FitResult,
) -> bool {
    let obs = cfg.observations@;
    let n = fint(dimensions(cfg) as int);
    let p = physical_of(math, cfg.kind, x, hottest(obs));
    let parts = eval_of(math, cfg, x).1;
    &&& r.model@ == model_name(cfg.kind)
    &&& r.converged == met
    &&& r.nll == f
    &&& r.log_likelihood == fneg(f)
    &&& r.aic == fadd(fmul(lit(TWO), f), fmul(lit(TWO), n))
    &&& r.bic == fadd(
        fmul(lit(TWO), f),
        fmul(n, answer(math, Call::Ln(fint(obs.len() as int)))),
    )
    &&& r.sigma_dex == answer(math, Call::Exp(log_spread(cfg, x)))
    &&& params_are(math, cfg.kind, p, cov, r.params@)
    &&& r.heat_bias@.len() == cfg.heats@.len()
    &&& forall|i: int|
        0 <= i < r.heat_bias@.len() ==> heat_param_is(
            math,
            show,
            cfg,
            x,
            cov,
            i,
            #[trigger] r.heat_bias@[i],
        )
    &&& r.residuals@.len() == parts.len()
    &&& forall|i: int|
        0 <= i < parts.len() ==> residual_is(
            math,
            cfg,
            p,
            x,
            obs[i],
            parts[i],
            #[trigger] r.residuals@[i],
        )
    &&& views(r.included@) == sample_ids(obs)
    &&& r.scale == scale_of(math, obs)
    &&& r.internal.raw@ == x
    &&& rows(r.internal.cov_raw@) == cov
    &&& index_is(cfg, r.internal.heat_index@)
    &&& r.internal.temp_max_k == hottest(obs)
}

/// What a fit gives back: the better end of the two searches, the covariance there and the
/// report.
pub open spec fn fitted<M: Fn(Call) -> Real, S: Fn(Print) -> String>(
    math: M,
    show: S,
    cfg: FitConfig,
    out: FitOutput,
) -> bool {
    let (x, f, met) = found(math, cfg);
    let cov = covariance_of(hessian_of(objective_of(math, cfg), x, f));
    &&& out.raw@ == x
    &&& rows(out.cov@) == cov
    &&& out.ws_scale == scale_of(math, cfg.observations@)
    &&& out.temp_max_k == hottest(cfg.observations@)
    &&& out.heat_index@.len() == 0
    &&& out.n_obs == cfg.observations@.len()
    &&& result_is(math, show, cfg, x, f, met, cov, out.result)
}

impl FitOutput {
    /// Whether the searched values, their covariance and the places of the heats belong
    /// together.
    pub open spec fn well_formed(self, kind: ModelKind) -> bool {
        &&& self.raw@.len() > n_base(kind)
        &&& square(rows(self.cov@), self.raw@.len())
        &&& forall|i: int|
            0 <= i < self.result.internal.heat_index@.len() ==> n_base(kind) + (
            #[trigger] self.result.internal.heat_index@[i]).1 < self.raw@.len() - 1
    }
}

/// Fits a model to the observations; `None` where there are none.
pub fn fit<M: Fn(Call) -> Real, S: Fn(Print) -> String>(
    cfg: FitConfig,
    math: &M,
    show: &S,
) -> (r: Option<FitOutput>)
    requires
        is_math(*math),
        is_printer(*show),
        is_config(cfg),
    ensures
        match r {
            Some(out) => cfg.observations@.len() > 0 && fitted(*math, *show, cfg, out)
                && out.well_formed(cfg.kind),
            None => cfg.observations@.len() == 0,
        },
{
    if cfg.observations.len() == 0 {
        return None;
    }
    proof {
        lemma_dimensions(cfg);
    }
    let ws: Workspace = Workspace::build(&cfg, math);
    let x0: Vec<Real> = initial_values(math, &ws);
    let one: (Vec<Real>, Real, bool) = search(math, &ws, &x0);
    let x1: Vec<Real> = pad(math, initial_raw(cfg.kind), ws.nfree_heats);
    let two: (Vec<Real>, Real, bool) = search(math, &ws, &x1);
    let (xbest, fbest, met): (Vec<Real>, Real, bool) = if two.1.lt(one.1) { two } else { one };
    let p: Vec<Real> = ws.phys_params(math, &xbest);
    let sigma: Real = ask(math, Call::Exp(xbest[ws.sigma_index()]));
    let hess: Vec<Vec<Real>> = curvatures(math, &ws, &xbest, fbest);
    proof {
        assert(rows(hess@).len() == xbest@.len());
    }
    let cov: Vec<Vec<Real>> = covariance(&hess);
    proof {
        assert(rows(cov@).len() == xbest@.len());
    }
    let (_, parts) = eval_all(math, &ws, &xbest);
    let n_obs: usize = cfg.observations.len();
    let n_param: Real = Real::from_count(ws.ndim() as u64);
    let aic: Real = lit(TWO).times(fbest).plus(lit(TWO).times(n_param));
    let count: Real = ask(math, Call::Ln(Real::from_count(n_obs as u64)));
    let bic: Real = lit(TWO).times(fbest).plus(n_param.times(count));
    let params: Vec<ParamOut> = params_out(math, cfg.kind, &p, &cov);
    let (heat_bias, heat_index) = heats_out(math, show, &ws, &xbest, &cov);
    let residuals: Vec<ResidualOut> = residuals_out(math, &ws, &p, &xbest, &parts);
    let included: Vec<String> = ids_out(&cfg.observations);
    let model: String = match cfg.kind {
        ModelKind::LarsonMiller => "larson_miller".to_owned(),
        ModelKind::Custom => "custom".to_owned(),
    };
    let result: FitResult = FitResult {
        model,
        converged: met,
        nll: fbest,
        log_likelihood: fbest.negated(),
        aic,
        bic,
        sigma_dex: sigma,
        params,
        heat_bias,
        residuals,
        included,
        scale: ws.scale,
        internal: Internal {
            raw: copy(&xbest),
            cov_raw: copy_rows(&cov),
            heat_index,
            temp_max_k: ws.temp_max_k,
        },
    };
    proof {
        assert forall|i: int| 0 <= i < result.internal.heat_index@.len() implies n_base(cfg.kind) + (
        #[trigger] result.internal.heat_index@[i]).1 < xbest@.len() - 1 by {
            lemma_free_count(cfg, i as nat, cfg.heats@.len());
        }
    }
    let ws_scale: crate::models::Scale = ws.scale;
    let temp_max_k: Real = ws.temp_max_k;
    Some(
        FitOutput {
            result,
            ws_scale,
            raw: xbest,
            cov,
            temp_max_k,
            heat_index: Vec::new(),
            n_obs,
        },
    )
}

/// A fit is never worse than where its searches start, and the value that it reports is that
/// of the parameters that it reports.
pub proof fn law_fit_descends<M: Fn(Call) -> Real>(math: M, cfg: FitConfig)
    requires
        is_config(cfg),
    ensures
        ({
            let f = objective_of(math, cfg);
            let (x, v, _) = found(math, cfg);
            &&& v == f(x)
            &&& fle(v, f(start_of(math, cfg)))
            &&& fle(v, f(plain_start(math, cfg)))
        }),
{
    let f = objective_of(math, cfg);
    lemma_dimensions(cfg);
    lemma_start_len(math, cfg);
    assert(lit(FAR).finite());
    assert forall|x: Seq<Real>| !(#[trigger] f(x)).nan() by {}
    law_classic_search_descends(f, start_of(math, cfg), STEPS as nat);
    law_classic_search_descends(f, plain_start(math, cfg), STEPS as nat);
}

/// The bias of the reference heat is zero, whatever is searched or fixed.
pub proof fn law_reference_bias(cfg: FitConfig, i: int, raw: Seq<Real>)
    requires
        0 <= i < cfg.heats@.len(),
        cfg.heats@[i]@ == cfg.reference_heat@,
    ensures
        bias_of(cfg, i, raw) == lit(ZERO),
{
    lemma_reference_unfixed(cfg, i, cfg.fixed_heats@.len());
}

proof fn lemma_reference_unfixed(cfg: FitConfig, i: int, k: nat)
    requires
        cfg.heats@[i]@ == cfg.reference_heat@,
    ensures
        fixed_of(cfg, i, k) == lit(ZERO),
    decreases k,
{
    if k > 0 {
        lemma_reference_unfixed(cfg, i, (k - 1) as nat);
    }
}

/// A heat that the user has fixed has the bias of the last entry that names it, whatever is
/// searched.
pub proof fn law_fixed_bias(cfg: FitConfig, i: int, e: int, raw: Seq<Real>)
    requires
        0 <= i < cfg.heats@.len(),
        forall|j: int| 0 <= j < i ==> (#[trigger] cfg.heats@[j])@ != cfg.heats@[i]@,
        cfg.heats@[i]@ != cfg.reference_heat@,
        0 <= e < cfg.fixed_heats@.len(),
        cfg.fixed_heats@[e].heat@ == cfg.heats@[i]@,
        forall|j: int|
            e < j < cfg.fixed_heats@.len() ==> (#[trigger] cfg.fixed_heats@[j]).heat@
                != cfg.heats@[i]@,
    ensures
        bias_of(cfg, i, raw) == cfg.fixed_heats@[e].bias,
{
    let names = fixed_names(cfg.fixed_heats@);
    assert(names[e] == cfg.heats@[i]@);
    assert(names.contains(cfg.heats@[i]@));
    lemma_last_fixed(cfg, i, e, cfg.fixed_heats@.len());
}

proof fn lemma_last_fixed(cfg: FitConfig, i: int, e: int, k: nat)
    requires
        0 <= i < cfg.heats@.len(),
        forall|j: int| 0 <= j < i ==> (#[trigger] cfg.heats@[j])@ != cfg.heats@[i]@,
        cfg.heats@[i]@ != cfg.reference_heat@,
        0 <= e < k <= cfg.fixed_heats@.len(),
        cfg.fixed_heats@[e].heat@ == cfg.heats@[i]@,
        forall|j: int| e < j < k ==> (#[trigger] cfg.fixed_heats@[j]).heat@ != cfg.heats@[i]@,
    ensures
        fixed_of(cfg, i, k) == cfg.fixed_heats@[e].bias,
    decreases k,
{
    let names = views(cfg.heats@);
    let h = cfg.fixed_heats@[k - 1].heat@;
    lemma_index_in(names, h);
    assert(names[i] == cfg.heats@[i]@);
    if k - 1 == e {
        assert(names.contains(h));
        let at = index_in(names, h)->0;
        if at < i {
            assert(names[at] == cfg.heats@[at]@);
        }
    } else {
        lemma_last_fixed(cfg, i, e, (k - 1) as nat);
    }
}

/// A bias that is free is a searched value of its own: no other heat has the same one, and
/// it is neither a parameter of the curve nor the spread.
pub proof fn law_free_biases_apart(cfg: FitConfig, i: int, j: int, raw: Seq<Real>)
    requires
        0 <= i < j < cfg.heats@.len(),
        is_free(cfg, cfg.heats@[i]@),
        is_free(cfg, cfg.heats@[j]@),
    ensures
        ({
            let nb = n_base(cfg.kind) as int;
            &&& bias_of(cfg, i, raw) == raw[nb + free_of(cfg, i)]
            &&& bias_of(cfg, j, raw) == raw[nb + free_of(cfg, j)]
            &&& nb <= nb + free_of(cfg, i) < nb + free_of(cfg, j) < dimensions(cfg) - 1
        }),
{
    lemma_free_count(cfg, i as nat, j as nat);
    lemma_free_count(cfg, j as nat, cfg.heats@.len());
}

/// A censored sample is never reported with a residual, and neither is one of variable load.
pub proof fn law_censored_has_no_residual<M: Fn(Call) -> Real, S: Fn(Print) -> String>(
    math: M,
    show: S,
    cfg: FitConfig,
    out: FitOutput,
    i: int,
)
    requires
        fitted(math, show, cfg, out),
        0 <= i < out.result.residuals@.len(),
    ensures
        out.result.residuals@[i].residual_dex is Some <==> cfg.observations@[i].kind == ObsKind::Exact
            && !cfg.observations@[i].variable,
{
    let (x, f, met) = found(math, cfg);
    let row = eval_of(math, cfg, x).1[i];
    assert(residual_is(
        math,
        cfg,
        physical_of(math, cfg.kind, x, hottest(cfg.observations@)),
        x,
        cfg.observations@[i],
        row,
        out.result.residuals@[i],
    ));
}

/// Every reported variance is above zero: a direction that the data do not tell shows as a
/// large error and never as a false certainty.
pub proof fn law_variances_positive(h: Seq<Seq<Real>>)
    ensures
        positive_diagonal(covariance_of(h)),
{
    lemma_ridge_positive(h, lit(ZERO), RIDGES as nat);
}

proof fn lemma_ridge_positive(h: Seq<Seq<Real>>, ridge: Real, k: nat)
    ensures
        ridge_search(h, ridge, k) matches Some(m) ==> positive_diagonal(m),
    decreases k,
{
    if k > 0 {
        lemma_ridge_positive(
            h,
            if feq(ridge, lit(ZERO)) {
                lit(FIRST_RIDGE)
            } else {
                fmul(ridge, lit(TEN))
            },
            (k - 1) as nat,
        );
    }
}

/// A fit of the same observations gives the same result when it is run again.
pub proof fn law_rerun_reproduces<M: Fn(Call) -> Real, S: Fn(Print) -> String>(
    math: M,
    show: S,
    cfg: FitConfig,
    a: FitOutput,
    b: FitOutput,
)
    requires
        fitted(math, show, cfg, a),
        fitted(math, show, cfg, b),
    ensures
        a.raw@ == b.raw@,
        rows(a.cov@) == rows(b.cov@),
        a.result.nll == b.result.nll,
        a.result.aic == b.result.aic,
        a.result.bic == b.result.bic,
        a.result.sigma_dex == b.result.sigma_dex,
        a.result.converged == b.result.converged,
        views(a.result.included@) == views(b.result.included@),
{
}

} // verus!
