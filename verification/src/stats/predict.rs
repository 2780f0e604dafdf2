//! Predictions of a fit, and how far they may be trusted.
use vstd::prelude::*;
use crate::host::{answer, ask, is_faithful, is_math, tells_powers_apart, Call, Print};
use crate::ingest::{option_view, unit_view};
use crate::linalg::{bump, bumped, dip, dipped, fsum, square, sum};
use crate::models::{mean_log_life, mean_log_life_of, n_base, physical, physical_of, ModelKind,
    Scale};
use crate::normal::{erf_of, erfc, erfc_of, fsquare, square_of, SQRT_2};
use crate::number::{feq, fle, flt, fmax, lit, Real, BINADE};
use crate::number::arith::{fadd, fdiv, fmul, fsub};
use crate::number::consts::{HUNDRED_TWENTY_EIGHT, MINUS_HUNDRED_TWENTY_EIGHT, MINUS_SIXTY_FOUR,
    ONE, SIXTY_FOUR, TRIFLE, TWO, ZERO};
use crate::number::error::{is_near, law_difference_error, law_reach_is_felt,
    law_reach_is_symmetric, law_sum_error, size_of};
use crate::number::order::{law_commutes, law_difference_antitone, law_product_monotone, law_reach,
    law_scaling_monotone, law_sum_monotone, law_zero_added};
use crate::simplex::rows;
use crate::stats::{Envelope, FitConfig, FitOutput, ParamOut, PredictionOut};
use crate::stats::engine::{fitted, heat_param_is, law_reference_bias};
use crate::stats::workspace::bias_of;
use crate::text::{index_in, lemma_index_in, push_if, same, views, given_if};

verus! {

/// 1e-5, the step of the derivatives.
pub const DERIVATIVE_STEP: u64 = 0x3ee4_f8b5_88e3_68f1;

/// 1e-9, within which a point counts as on the envelope.
pub const EDGE: u64 = 0x3e11_2e0b_e826_d695;

/// 0.1, the normalised distance up to which the risk is low.
pub const LOW_RISK: u64 = 0x3fb9_9999_9999_999a;

/// 0.4, the normalised distance up to which the risk is medium.
pub const MEDIUM_RISK: u64 = 0x3fd9_9999_9999_999a;

pub open spec fn index_names(index: Seq<(String, i32)>) -> Seq<Seq<char>> {
    index.map_values(|e: (String, i32)| e.0@)
}

/// The place of a heat among the free biases, where it has one.
pub open spec fn free_place(index: Seq<(String, i32)>, heat: Option<Seq<char>>) -> Option<int> {
    match heat {
        None => None,
        Some(h) => match index_in(index_names(index), h) {
            Some(i) => if index[i].1 >= 0 {
                Some(index[i].1 as int)
            } else {
                None
            },
            None => None,
        },
    }
}

fn find_place(index: &Vec<(String, i32)>, heat: Option<&str>) -> (r: Option<usize>)
    ensures
        match r {
            Some(j) => free_place(index@, unit_view(heat)) == Some(j as int) && exists|i: int|
                0 <= i < index@.len() && (#[trigger] index@[i]).1 == j,
            None => free_place(index@, unit_view(heat)) is None,
        },
{
    let h: &str = match heat {
        Some(h) => h,
        None => {
            return None;
        },
    };
    let ghost names = index_names(index@);
    proof {
        lemma_index_in(names, h@);
    }
    let mut i: usize = 0;
    while i < index.len()
        invariant
            unit_view(heat) == Some(h@),
            names == index_names(index@),
            i <= index@.len(),
            forall|k: int| 0 <= k < i ==> names[k] != h@,
            match index_in(names, h@) {
                Some(i) => 0 <= i < names.len() && names[i] == h@ && forall|k: int|
                    0 <= k < i ==> names[k] != h@,
                None => !names.contains(h@),
            },
        decreases index@.len() - i,
    {
        if same(index[i].0.as_str(), h) {
            proof {
                assert(names[i as int] == h@);
                assert(names.contains(h@));
            }
            let j: i32 = index[i].1;
            if j >= 0 {
                proof {
                    assert(index@[i as int].1 == j);
                }
                return Some(j as usize);
            }
            return None;
        }
        i = i + 1;
    }
    None
}

pub open spec fn row_names(rows: Seq<ParamOut>) -> Seq<Seq<char>> {
    rows.map_values(|p: ParamOut| p.name@)
}

/// The bias of a heat as its row reports it, 0 where no heat is named or it has no row.
pub open spec fn reported_bias(rows: Seq<ParamOut>, heat: Option<Seq<char>>) -> Real {
    match heat {
        None => lit(ZERO),
        Some(h) => match index_in(row_names(rows), h) {
            Some(i) => rows[i].value,
            None => lit(ZERO),
        },
    }
}

fn find_bias(rows: &Vec<ParamOut>, heat: Option<&str>) -> (r: Real)
    ensures
        r == reported_bias(rows@, unit_view(heat)),
{
    let h: &str = match heat {
        Some(h) => h,
        None => {
            return lit(ZERO);
        },
    };
    let ghost names = row_names(rows@);
    proof {
        lemma_index_in(names, h@);
    }
    let mut i: usize = 0;
    while i < rows.len()
        invariant
            unit_view(heat) == Some(h@),
            names == row_names(rows@),
            i <= rows@.len(),
            forall|k: int| 0 <= k < i ==> names[k] != h@,
            match index_in(names, h@) {
                Some(i) => 0 <= i < names.len() && names[i] == h@ && forall|k: int|
                    0 <= k < i ==> names[k] != h@,
                None => !names.contains(h@),
            },
        decreases rows@.len() - i,
    {
        if same(rows[i].name.as_str(), h) {
            proof {
                assert(names[i as int] == h@);
                assert(names.contains(h@));
            }
            return rows[i].value;
        }
        i = i + 1;
    }
    lit(ZERO)
}

/// The mean log10 life that the searched values `x` give at a point.
pub open spec fn life_at<M: Fn(Call) -> Real>(
    math: M,
    kind: ModelKind,
    x: Seq<Real>,
    temp_max_k: Real,
    temp_k: Real,
    stress: Real,
    scale: Scale,
) -> Real {
    mean_log_life_of(kind, physical_of(math, kind, x, temp_max_k), temp_k, stress, scale)
}

/// The derivatives of the mean log10 life by the searched values, but the last.
pub open spec fn jacobian_of<M: Fn(Call) -> Real>(
    math: M,
    kind: ModelKind,
    fo: FitOutput,
    temp_k: Real,
    stress: Real,
) -> Seq<Real> {
    let h = lit(DERIVATIVE_STEP);
    Seq::new(
        (fo.raw@.len() - 1) as nat,
        |i: int|
            fdiv(
                fsub(
                    life_at(
                        math,
                        kind,
                        bumped(fo.raw@, i, h),
                        fo.temp_max_k,
                        temp_k,
                        stress,
                        fo.ws_scale,
                    ),
                    life_at(
                        math,
                        kind,
                        dipped(fo.raw@, i, h),
                        fo.temp_max_k,
                        temp_k,
                        stress,
                        fo.ws_scale,
                    ),
                ),
                fmul(lit(TWO), h),
            ),
    )
}

pub fn jacobian_at<M: Fn(Call) -> Real>(
    math: &M,
    kind: ModelKind,
    fo: &FitOutput,
    temp_k: Real,
    stress: Real,
) -> (r:
    Vec<Real>)
    requires
        is_math(*math),
        fo.raw@.len() > n_base(kind),
    ensures
        r@ == jacobian_of(*math, kind, *fo, temp_k, stress),
        r@.len() == fo.raw@.len() - 1,
{
    let n: usize = fo.raw.len() - 1;
    let h: Real = lit(DERIVATIVE_STEP);
    let mut j: Vec<Real> = Vec::new();
    let mut i: usize = 0;
    while i < n
        invariant
            is_math(*math),
            n == fo.raw@.len() - 1,
            n >= n_base(kind),
            h == lit(DERIVATIVE_STEP),
            i <= n,
            j@ == jacobian_of(*math, kind, *fo, temp_k, stress).take(i as int),
        decreases n - i,
    {
        let up: Vec<Real> = bump(&fo.raw, i, h);
        let down: Vec<Real> = dip(&fo.raw, i, h);
        let pp: Vec<Real> = physical(math, kind, &up, fo.temp_max_k);
        let pm: Vec<Real> = physical(math, kind, &down, fo.temp_max_k);
        let mp: Real = mean_log_life(kind, &pp, temp_k, stress, &fo.ws_scale);
        let mm: Real = mean_log_life(kind, &pm, temp_k, stress, &fo.ws_scale);
        j.push(mp.minus(mm).over(lit(TWO).times(h)));
        proof {
            assert(j@ =~= jacobian_of(*math, kind, *fo, temp_k, stress).take(i + 1));
        }
        i = i + 1;
    }
    proof {
        assert(j@ =~= jacobian_of(*math, kind, *fo, temp_k, stress));
    }
    j
}

/// The terms of one row of a covariance.
pub open spec fn row_terms(row: Seq<Real>, jac: Seq<Real>) -> Seq<Real> {
    Seq::new(jac.len(), |j: int| fmul(row[j], jac[j]))
}

/// The terms of a propagated variance, row by row.
pub open spec fn variance_terms(cov: Seq<Seq<Real>>, jac: Seq<Real>) -> Seq<Real> {
    Seq::new(jac.len(), |i: int| fmul(jac[i], fsum(row_terms(cov[i], jac), jac.len())))
}

/// The variance that the covariance gives along `jac`.
pub open spec fn variance_of(cov: Seq<Seq<Real>>, jac: Seq<Real>) -> Real {
    fsum(variance_terms(cov, jac), jac.len())
}

fn variance(cov: &Vec<Vec<Real>>, jac: &Vec<Real>) -> (r: Real)
    requires
        square(rows(cov@), jac@.len() + 1),
    ensures
        r == variance_of(rows(cov@), jac@),
{
    let n: usize = jac.len();
    let mut terms: Vec<Real> = Vec::new();
    let mut i: usize = 0;
    while i < n
        invariant
            n == jac@.len(),
            square(rows(cov@), jac@.len() + 1),
            i <= n,
            terms@ == variance_terms(rows(cov@), jac@).take(i as int),
        decreases n - i,
    {
        proof {
            assert(rows(cov@).len() == n + 1);
            assert(rows(cov@)[i as int].len() == n + 1);
        }
        let ghost row = rows(cov@)[i as int];
        let mut inner: Vec<Real> = Vec::new();
        let mut j: usize = 0;
        while j < n
            invariant
                n == jac@.len(),
                i < cov@.len(),
                row == cov@[i as int]@,
                row.len() == n + 1,
                j <= n,
                inner@ == row_terms(row, jac@).take(j as int),
            decreases n - j,
        {
            inner.push(cov[i][j].times(jac[j]));
            proof {
                assert(inner@ =~= row_terms(row, jac@).take(j + 1));
            }
            j = j + 1;
        }
        proof {
            assert(inner@ =~= row_terms(row, jac@));
        }
        terms.push(jac[i].times(sum(&inner)));
        proof {
            assert(terms@ =~= variance_terms(rows(cov@), jac@).take(i + 1));
        }
        i = i + 1;
    }
    proof {
        assert(terms@ =~= variance_terms(rows(cov@), jac@));
    }
    sum(&terms)
}

/// How far `x` lies outside the range from `low` to `high`, in ranges.
pub open spec fn excess_of(x: Real, low: Real, high: Real) -> Real {
    fdiv(
        fadd(fmax(fsub(low, x), lit(ZERO)), fmax(fsub(x, high), lit(ZERO))),
        fmax(fsub(high, low), lit(ONE)),
    )
}

fn excess(x: Real, low: Real, high: Real) -> (r: Real)
    ensures
        r == excess_of(x, low, high),
{
    let range: Real = high.minus(low).max(lit(ONE));
    low.minus(x).max(lit(ZERO)).plus(x.minus(high).max(lit(ZERO))).over(range)
}

/// The normalised distance of a point from the envelope.
pub open spec fn distance_of<M: Fn(Call) -> Real>(
    math: M,
    env: Envelope,
    temp_k: Real,
    stress: Real,
) -> Real {
    answer(
        math,
        Call::Hypot(
            excess_of(temp_k, env.temp_min_k, env.temp_max_k),
            excess_of(stress, env.stress_min_mpa, env.stress_max_mpa),
        ),
    )
}

pub open spec fn outside(x: Real, allow: (Real, Real)) -> bool {
    flt(x, allow.0) || flt(allow.1, x)
}

/// The edges of the envelope that a point touches or passes.
pub open spec fn edges_of(env: Envelope, temp_k: Real, stress: Real) -> Seq<Seq<char>> {
    given_if(fle(temp_k, fadd(env.temp_min_k, lit(EDGE))), "temp_min"@) + given_if(
        fle(fsub(env.temp_max_k, lit(EDGE)), temp_k),
        "temp_max"@,
    ) + given_if(fle(stress, fadd(env.stress_min_mpa, lit(EDGE))), "stress_min"@) + given_if(
        fle(fsub(env.stress_max_mpa, lit(EDGE)), stress),
        "stress_max"@,
    )
}

fn edges(env: &Envelope, temp_k: Real, stress: Real) -> (r: Vec<String>)
    ensures
        views(r@) == edges_of(*env, temp_k, stress),
{
    let mut list: Vec<String> = Vec::new();
    push_if(&mut list, temp_k.le(env.temp_min_k.plus(lit(EDGE))), "temp_min");
    push_if(&mut list, env.temp_max_k.minus(lit(EDGE)).le(temp_k), "temp_max");
    push_if(&mut list, stress.le(env.stress_min_mpa.plus(lit(EDGE))), "stress_min");
    push_if(&mut list, env.stress_max_mpa.minus(lit(EDGE)).le(stress), "stress_max");
    proof {
        assert(views(list@) =~= edges_of(*env, temp_k, stress));
    }
    list
}

/// The risk of a prediction, and the warning with it: one outside the allowed ranges is
/// rejected, one inside the envelope interpolates, and any other grows riskier with its
/// distance.
pub open spec fn risk_of(outside_allowed: bool, dist: Real) -> (Seq<char>, Option<Seq<char>>) {
    if outside_allowed {
        ("rejected"@, Some("预测点超出用户允许外推范围，拒绝给出曲线延长值"@))
    } else if fle(dist, lit(EDGE)) {
        ("interpolated"@, None)
    } else if fle(dist, lit(LOW_RISK)) {
        ("low"@, Some("紧邻实验包络边界，风险低但仍为外推"@))
    } else if fle(dist, lit(MEDIUM_RISK)) {
        ("medium"@, Some("已离开实验包络，模型形式风险上升"@))
    } else {
        ("high"@, Some("远离实验包络，预测仅为受限模型外推，不可用于验收"@))
    }
}

pub fn risk(outside_allowed: bool, dist: Real) -> (r: (String, Option<String>))
    ensures
        (r.0@, option_view(r.1)) == risk_of(outside_allowed, dist),
{
    if outside_allowed {
        (
            "rejected".to_owned(),
            Some("预测点超出用户允许外推范围，拒绝给出曲线延长值".to_owned()),
        )
    } else if dist.le(lit(EDGE)) {
        ("interpolated".to_owned(), None)
    } else if dist.le(lit(LOW_RISK)) {
        ("low".to_owned(), Some("紧邻实验包络边界，风险低但仍为外推".to_owned()))
    } else if dist.le(lit(MEDIUM_RISK)) {
        ("medium".to_owned(), Some("已离开实验包络，模型形式风险上升".to_owned()))
    } else {
        (
            "high".to_owned(),
            Some("远离实验包络，预测仅为受限模型外推，不可用于验收".to_owned()),
        )
    }
}

/// The derivatives of the prediction for a heat: those of the curve, and 1 by the bias of
/// the heat where it is free.
pub open spec fn gradient_of<M: Fn(Call) -> Real>(
    math: M,
    kind: ModelKind,
    fo: FitOutput,
    temp_k: Real,
    stress: Real,
    place: Option<int>,
) -> Seq<Real> {
    let jac = jacobian_of(math, kind, fo, temp_k, stress);
    match place {
        Some(j) => jac.update(n_base(kind) + j, lit(ONE)),
        None => jac,
    }
}

/// The standard error of a prediction, of the parameters and of the lives together.
pub open spec fn error_of<M: Fn(Call) -> Real>(
    math: M,
    fo: FitOutput,
    kind: ModelKind,
    temp_k: Real,
    stress: Real,
    heat: Option<Seq<char>>,
) -> Real {
    let place = free_place(fo.result.internal.heat_index@, heat);
    let var = variance_of(rows(fo.cov@), gradient_of(math, kind, fo, temp_k, stress, place));
    answer(math, Call::Sqrt(fadd(var, fsquare(fo.result.sigma_dex))))
}

/// A prediction.
pub open spec fn predicted<M: Fn(Call) -> Real>(
    math: M,
    fo: FitOutput,
    env: Envelope,
    kind: ModelKind,
    temp_k: Real,
    stress: Real,
    allow_temp_k: (Real, Real),
    allow_stress: (Real, Real),
    heat: Option<Seq<char>>,
    pi_z: Real,
    r: PredictionOut,
) -> bool {
    let place = free_place(fo.result.internal.heat_index@, heat);
    let bias = reported_bias(fo.result.heat_bias@, heat);
    let mu = fadd(
        life_at(math, kind, fo.raw@, fo.temp_max_k, temp_k, stress, fo.ws_scale),
        bias,
    );
    let var = variance_of(rows(fo.cov@), gradient_of(math, kind, fo, temp_k, stress, place));
    let s2 = fsquare(fo.result.sigma_dex);
    let reach = fmul(pi_z, error_of(math, fo, kind, temp_k, stress, heat));
    let dist = distance_of(math, env, temp_k, stress);
    let out = outside(temp_k, allow_temp_k) || outside(stress, allow_stress);
    &&& r.temp_k == temp_k
    &&& r.stress_mpa == stress
    &&& r.mean_log10_h == mu
    &&& r.median_h == answer(math, Call::Pow10(mu))
    &&& r.pi_low_h == answer(math, Call::Pow10(fsub(mu, reach)))
    &&& r.pi_high_h == answer(math, Call::Pow10(fadd(mu, reach)))
    &&& r.pi_level == fsub(lit(ONE), erfc_of(math, fdiv(pi_z, lit(SQRT_2))))
    &&& r.inside_envelope == fle(dist, lit(EDGE))
    &&& r.outside_allowed == out
    &&& r.risk@ == risk_of(out, dist).0
    &&& option_view(r.warning) == risk_of(out, dist).1
    &&& views(r.boundary_active@) == edges_of(env, temp_k, stress)
    &&& r.normalized_distance == dist
    &&& r.extrapolation_leverage == fmax(fdiv(var, s2), lit(ZERO))
}

impl FitOutput {
    pub fn predict<M: Fn(Call) -> Real>(
        &self,
        math: &M,
        env: &Envelope,
        kind: ModelKind,
        temp_k: Real,
        stress: Real,
        allow_temp_k: (Real, Real),
        allow_stress: (Real, Real),
        heat: Option<&str>,
        pi_z: Real,
    ) -> (r: PredictionOut)
        requires
            is_math(*math),
            self.well_formed(kind),
        ensures
            predicted(
                *math,
                *self,
                *env,
                kind,
                temp_k,
                stress,
                allow_temp_k,
                allow_stress,
                unit_view(heat),
                pi_z,
                r,
            ),
    {
        let p: Vec<Real> = physical(math, kind, &self.raw, self.temp_max_k);
        let place: Option<usize> = find_place(&self.result.internal.heat_index, heat);
        let mut jac: Vec<Real> = jacobian_at(math, kind, self, temp_k, stress);
        let bias: Real = find_bias(&self.result.heat_bias, heat);
        match place {
            Some(j) => {
                jac.set(n_base(kind) + j, lit(ONE));
            },
            None => {},
        }
        let mu: Real = mean_log_life(kind, &p, temp_k, stress, &self.ws_scale).plus(bias);
        let var: Real = variance(&self.cov, &jac);
        let s2: Real = square_of(self.result.sigma_dex);
        let se_total: Real = ask(math, Call::Sqrt(var.plus(s2)));
        let leverage: Real = var.over(s2).max(lit(ZERO));
        let dt: Real = excess(temp_k, env.temp_min_k, env.temp_max_k);
        let ds: Real = excess(stress, env.stress_min_mpa, env.stress_max_mpa);
        let dist: Real = ask(math, Call::Hypot(dt, ds));
        let outside_allowed: bool = temp_k.lt(allow_temp_k.0) || allow_temp_k.1.lt(temp_k)
            || stress.lt(allow_stress.0) || allow_stress.1.lt(stress);
        let boundary_active: Vec<String> = edges(env, temp_k, stress);
        let (risk, warning) = self::risk(outside_allowed, dist);
        PredictionOut {
            temp_k,
            stress_mpa: stress,
            mean_log10_h: mu,
            median_h: ask(math, Call::Pow10(mu)),
            pi_low_h: ask(math, Call::Pow10(mu.minus(pi_z.times(se_total)))),
            pi_high_h: ask(math, Call::Pow10(mu.plus(pi_z.times(se_total)))),
            pi_level: lit(ONE).minus(erfc(math, pi_z.over(lit(SQRT_2)))),
            inside_envelope: dist.le(lit(EDGE)),
            outside_allowed,
            risk,
            boundary_active,
            normalized_distance: dist,
            extrapolation_leverage: leverage,
            warning,
        }
    }
}

/// A point outside the allowed ranges is rejected and warned of, and no other is: no
/// prediction there passes for one that may be used.
pub proof fn law_outside_is_rejected<M: Fn(Call) -> Real>(
    math: M,
    fo: FitOutput,
    env: Envelope,
    kind: ModelKind,
    temp_k: Real,
    stress: Real,
    allow_temp_k: (Real, Real),
    allow_stress: (Real, Real),
    heat: Option<Seq<char>>,
    pi_z: Real,
    r: PredictionOut,
)
    requires
        predicted(
            math,
            fo,
            env,
            kind,
            temp_k,
            stress,
            allow_temp_k,
            allow_stress,
            heat,
            pi_z,
            r,
        ),
    ensures
        r.risk@ == "rejected"@ <==> outside(temp_k, allow_temp_k) || outside(stress, allow_stress),
        r.risk@ == "interpolated"@ <==> r.inside_envelope && !r.outside_allowed,
        r.warning is None <==> r.risk@ == "interpolated"@,
{
    reveal_strlit("rejected");
    reveal_strlit("interpolated");
    reveal_strlit("low");
    reveal_strlit("medium");
    reveal_strlit("high");
    assert("rejected"@.len() == 8);
    assert("interpolated"@.len() == 12);
    assert("low"@.len() == 3);
    assert("medium"@.len() == 6);
    assert("high"@.len() == 4);
}

/// The interval of a prediction holds its median, wherever the variance is not negative.
pub proof fn law_interval_holds_median<M: Fn(Call) -> Real>(
    math: M,
    fo: FitOutput,
    env: Envelope,
    kind: ModelKind,
    temp_k: Real,
    stress: Real,
    allow_temp_k: (Real, Real),
    allow_stress: (Real, Real),
    heat: Option<Seq<char>>,
    pi_z: Real,
    r: PredictionOut,
)
    requires
        is_faithful(math),
        predicted(
            math,
            fo,
            env,
            kind,
            temp_k,
            stress,
            allow_temp_k,
            allow_stress,
            heat,
            pi_z,
            r,
        ),
        ({
            let place = free_place(fo.result.internal.heat_index@, heat);
            let var = variance_of(
                rows(fo.cov@),
                gradient_of(math, kind, fo, temp_k, stress, place),
            );
            fle(lit(ZERO), fadd(var, fsquare(fo.result.sigma_dex)))
        }),
        flt(lit(ZERO), pi_z),
        pi_z.finite(),
        r.mean_log10_h.finite(),
    ensures
        fle(r.pi_low_h, r.median_h),
        fle(r.median_h, r.pi_high_h),
{
    let place = free_place(fo.result.internal.heat_index@, heat);
    let var = variance_of(rows(fo.cov@), gradient_of(math, kind, fo, temp_k, stress, place));
    let se = answer(math, Call::Sqrt(fadd(var, fsquare(fo.result.sigma_dex))));
    law_product_monotone(se, se, pi_z);
    law_commutes(se, pi_z);
    law_reach(r.mean_log10_h, fmul(pi_z, se));
}

/// The bias that a prediction takes for a heat of the fit is the one that the likelihood
/// took, be it searched or fixed by the user, and 0 for the reference; a heat that is not in
/// the fit has none.
pub proof fn law_predicted_bias<M: Fn(Call) -> Real, S: Fn(Print) -> String>(
    math: M,
    show: S,
    cfg: FitConfig,
    fo: FitOutput,
    h: Seq<char>,
)
    requires
        fitted(math, show, cfg, fo),
    ensures
        ({
            let bias = reported_bias(fo.result.heat_bias@, Some(h));
            match index_in(views(cfg.heats@), h) {
                Some(i) => bias == bias_of(cfg, i, fo.raw@) && bias
                    == fo.result.heat_bias@[i].value,
                None => bias == lit(ZERO),
            }
        }),
        h == cfg.reference_heat@ ==> reported_bias(fo.result.heat_bias@, Some(h)) == lit(ZERO),
{
    let rows = fo.result.heat_bias@;
    let names = views(cfg.heats@);
    assert(rows.len() == cfg.heats@.len());
    assert forall|i: int| 0 <= i < rows.len() implies #[trigger] row_names(rows)[i] == names[i] by {
        assert(heat_param_is(math, show, cfg, fo.raw@, crate::simplex::rows(fo.cov@), i, rows[i]));
    }
    assert(row_names(rows) =~= names);
    lemma_index_in(names, h);
    if let Some(i) = index_in(names, h) {
        assert(heat_param_is(math, show, cfg, fo.raw@, crate::simplex::rows(fo.cov@), i, rows[i]));
        if cfg.heats@[i]@ == cfg.reference_heat@ {
            law_reference_bias(cfg, i, fo.raw@);
        }
    }
}

/// A heat shifts the mean log10 life by the bias that its row reports.
pub proof fn law_heat_shifts_mean<M: Fn(Call) -> Real>(
    math: M,
    fo: FitOutput,
    env: Envelope,
    kind: ModelKind,
    temp_k: Real,
    stress: Real,
    allow_temp_k: (Real, Real),
    allow_stress: (Real, Real),
    h: Seq<char>,
    pi_z: Real,
    with: PredictionOut,
    without: PredictionOut,
)
    requires
        predicted(
            math,
            fo,
            env,
            kind,
            temp_k,
            stress,
            allow_temp_k,
            allow_stress,
            Some(h),
            pi_z,
            with,
        ),
        predicted(
            math,
            fo,
            env,
            kind,
            temp_k,
            stress,
            allow_temp_k,
            allow_stress,
            None,
            pi_z,
            without,
        ),
    ensures
        ({
            let bias = reported_bias(fo.result.heat_bias@, Some(h));
            let shifted = fadd(without.mean_log10_h, bias);
            with.mean_log10_h == shifted || feq(with.mean_log10_h, shifted)
        }),
{
    let life = life_at(math, kind, fo.raw@, fo.temp_max_k, temp_k, stress, fo.ws_scale);
    if !life.nan() && !(life.zero() && life.neg()) {
        law_zero_added(life);
    }
}

/// The leverage of a prediction is never negative.
pub proof fn law_leverage_not_negative<M: Fn(Call) -> Real>(
    math: M,
    fo: FitOutput,
    env: Envelope,
    kind: ModelKind,
    temp_k: Real,
    stress: Real,
    allow_temp_k: (Real, Real),
    allow_stress: (Real, Real),
    heat: Option<Seq<char>>,
    pi_z: Real,
    r: PredictionOut,
)
    requires
        predicted(
            math,
            fo,
            env,
            kind,
            temp_k,
            stress,
            allow_temp_k,
            allow_stress,
            heat,
            pi_z,
            r,
        ),
    ensures
        fle(lit(ZERO), r.extrapolation_leverage),
{
}

/// A higher level widens the interval on both sides and leaves the median, and all else of
/// the prediction, where it was. The level itself does not fall where the error function
/// does not.
pub proof fn law_higher_level_widens<M: Fn(Call) -> Real>(
    math: M,
    fo: FitOutput,
    env: Envelope,
    kind: ModelKind,
    temp_k: Real,
    stress: Real,
    allow_temp_k: (Real, Real),
    allow_stress: (Real, Real),
    heat: Option<Seq<char>>,
    z1: Real,
    z2: Real,
    narrow: PredictionOut,
    wide: PredictionOut,
)
    requires
        is_faithful(math),
        predicted(
            math,
            fo,
            env,
            kind,
            temp_k,
            stress,
            allow_temp_k,
            allow_stress,
            heat,
            z1,
            narrow,
        ),
        predicted(
            math,
            fo,
            env,
            kind,
            temp_k,
            stress,
            allow_temp_k,
            allow_stress,
            heat,
            z2,
            wide,
        ),
        flt(lit(ZERO), z1),
        fle(z1, z2),
        narrow.mean_log10_h.finite(),
        flt(lit(ZERO), error_of(math, fo, kind, temp_k, stress, heat)),
        error_of(math, fo, kind, temp_k, stress, heat).finite(),
    ensures
        wide.median_h == narrow.median_h,
        wide.mean_log10_h == narrow.mean_log10_h,
        fle(wide.pi_low_h, narrow.pi_low_h),
        fle(narrow.pi_high_h, wide.pi_high_h),
        wide.risk@ == narrow.risk@,
        wide.extrapolation_leverage == narrow.extrapolation_leverage,
        fle(erf_of(math, fdiv(z1, lit(SQRT_2))), erf_of(math, fdiv(z2, lit(SQRT_2)))) ==> fle(
            narrow.pi_level,
            wide.pi_level,
        ),
{
    let se = error_of(math, fo, kind, temp_k, stress, heat);
    let mu = narrow.mean_log10_h;
    let r1 = fmul(z1, se);
    let r2 = fmul(z2, se);
    law_scaling_monotone(z1, z2, se);
    law_difference_antitone(r1, r2, mu);
    law_sum_monotone(r1, r2, mu);
    law_commutes(r1, mu);
    law_commutes(r2, mu);
    let e1 = erf_of(math, fdiv(z1, lit(SQRT_2)));
    let e2 = erf_of(math, fdiv(z2, lit(SQRT_2)));
    if fle(e1, e2) {
        law_difference_antitone(e1, e2, lit(ONE));
        law_difference_antitone(fsub(lit(ONE), e2), fsub(lit(ONE), e1), lit(ONE));
    }
}

/// The interval of a prediction holds its median strictly, where the reach is felt beside the
/// mean and the powers of ten tell such numbers apart.
pub proof fn law_interval_is_strict<M: Fn(Call) -> Real>(
    math: M,
    fo: FitOutput,
    env: Envelope,
    kind: ModelKind,
    temp_k: Real,
    stress: Real,
    allow_temp_k: (Real, Real),
    allow_stress: (Real, Real),
    heat: Option<Seq<char>>,
    pi_z: Real,
    r: PredictionOut,
)
    requires
        tells_powers_apart(math),
        predicted(
            math,
            fo,
            env,
            kind,
            temp_k,
            stress,
            allow_temp_k,
            allow_stress,
            heat,
            pi_z,
            r,
        ),
        fle(lit(MINUS_SIXTY_FOUR), r.mean_log10_h),
        fle(r.mean_log10_h, lit(SIXTY_FOUR)),
        ({
            let reach = fmul(pi_z, error_of(math, fo, kind, temp_k, stress, heat));
            fle(lit(TRIFLE), reach) && fle(reach, lit(SIXTY_FOUR))
        }),
    ensures
        flt(r.pi_low_h, r.median_h),
        flt(r.median_h, r.pi_high_h),
{
    let mu = r.mean_log10_h;
    let reach = fmul(pi_z, error_of(math, fo, kind, temp_k, stress, heat));
    law_reach_is_felt(mu, reach);
    assert(fle(lit(MINUS_HUNDRED_TWENTY_EIGHT), mu));
    assert(fle(mu, lit(HUNDRED_TWENTY_EIGHT)));
}

/// The interval of a prediction is symmetric in the logarithm: its ends are powers of ten
/// whose exponents lie equally far from the mean, but for their roundings.
pub proof fn law_interval_is_log_symmetric<M: Fn(Call) -> Real>(
    math: M,
    fo: FitOutput,
    env: Envelope,
    kind: ModelKind,
    temp_k: Real,
    stress: Real,
    allow_temp_k: (Real, Real),
    allow_stress: (Real, Real),
    heat: Option<Seq<char>>,
    pi_z: Real,
    r: PredictionOut,
)
    requires
        predicted(
            math,
            fo,
            env,
            kind,
            temp_k,
            stress,
            allow_temp_k,
            allow_stress,
            heat,
            pi_z,
            r,
        ),
        r.mean_log10_h.finite(),
        ({
            let reach = fmul(pi_z, error_of(math, fo, kind, temp_k, stress, heat));
            &&& reach.finite()
            &&& fsub(r.mean_log10_h, reach).finite()
            &&& fadd(r.mean_log10_h, reach).finite()
        }),
    ensures
        ({
            let mu = r.mean_log10_h;
            let reach = fmul(pi_z, error_of(math, fo, kind, temp_k, stress, heat));
            let low = fsub(mu, reach);
            let high = fadd(mu, reach);
            &&& r.median_h == answer(math, Call::Pow10(mu))
            &&& r.pi_low_h == answer(math, Call::Pow10(low))
            &&& r.pi_high_h == answer(math, Call::Pow10(high))
            &&& is_near(low.value(), mu.value() - reach.value())
            &&& is_near(high.value(), mu.value() + reach.value())
            &&& size_of((high.value() - mu.value()) - (mu.value() - low.value())) * (2 * BINADE)
                <= size_of(mu.value() + reach.value()) + size_of(mu.value() - reach.value())
        }),
{
    let mu = r.mean_log10_h;
    let reach = fmul(pi_z, error_of(math, fo, kind, temp_k, stress, heat));
    law_sum_error(mu, reach);
    law_difference_error(mu, reach);
    law_reach_is_symmetric(mu, reach);
}

} // verus!
