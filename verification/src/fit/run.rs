//! The fit of a request, from the specimens to the predictions.
use vstd::prelude::*;
use crate::fit::{Censoring, Envelope, FitRequest, FitResult, InclusionRow, ParamReport,
    Prediction, PredictionInput, ResidualRow, TargetIn};
use crate::fit::covariance::{cov_estimate, cov_of, grad_u_of, leverage_for, leverage_of,
    numeric_grad_u, FIRST_RIDGE, RIDGES};
use crate::fit::master::MasterModel;
use crate::fit::problem::{evaluate, nll_of, row_is, sum_of, Eval, Plan, Problem, TINY};
use crate::fit::report::{bound_warnings, censor_entries, count_outcomes, count_variables,
    entries_are, envelope, envelope_is, offset_is, offsets_out, outcomes, params_are, params_out,
    round_at, rounded_at, variables, HUNDRED, MILLION, TEN_THOUSAND, THOUSAND};
use crate::fit::select::{chosen, inclusion_is, left_out, referred, select_specimens};
use crate::fit::target::{check_target, target_kelvin_of, targets_refusal};
use crate::host::{answer, ask, is_faithful, is_math, is_printer, print, printed, Call, Print};
use crate::ingest::{option_view, ICE_POINT};
use crate::linalg::{form_of, fsum, hessian, hessian_of, quad_form, square, sum};
use crate::normal::{fsquare, square_of};
use crate::number::{feq, fle, flt, fmax, fneg, lit, Real};
use crate::number::arith::{fadd, fdiv, fmul, fsub};
use crate::number::consts::{MINUS_HALF, ONE, TWO, ZERO};
use crate::number::convert::{fint, finteger};
use crate::number::order::{law_commutes, law_integer_monotone, law_product_monotone,
    law_quotient_monotone, law_reach};
use crate::simplex::{adaptive_nudge, adaptive_run, best_of, law_adaptive_search_descends, numeric,
    rows, search_adaptive, start_shape};
use crate::specimen::{debug_text, quoted, DomainError, Specimen};
use crate::strset::{law_set_of, set_of, to_set};
use crate::text::{cat, contains, decimal, given_if, has_part, join, joined, lemma_index_in,
    position, push_if, same, show_int, views};

verus! {

/// The most steps of a search.
pub const STEPS: usize = 3000;

/// 0.35, by which the second start differs from the first.
pub const START_SHIFT: u64 = 0x3fd6_6666_6666_6666;

/// 1.959964, the normal quantile of a two-sided interval of 95 percent.
pub const Z95: u64 = 0x3fff_5c03_3615_65c3;

/// 1e-9, the least variance of a prediction.
pub const LEAST_VARIANCE: u64 = 0x3e11_2e0b_e826_d695;

/// 0.25, the normalised distance from which the risk is high.
pub const HIGH_RISK: u64 = 0x3fd0_0000_0000_0000;

/// The fewest specimens that a fit needs.
pub const FEWEST: usize = 4;

// ---- the search ----

pub open spec fn heat_names(specs: Seq<Specimen>) -> Seq<Seq<char>> {
    specs.map_values(|s: Specimen| s.heat@)
}

/// The heats of the specimens, sorted, each once; the first is the base.
pub open spec fn heats_of(specs: Seq<Specimen>) -> Seq<Seq<char>> {
    set_of(heat_names(specs), specs.len())
}

/// Whether the shrinkage of a request can be used.
pub open spec fn shrink_ok(shrink: Real) -> bool {
    shrink.finite() && fle(lit(ZERO), shrink)
}

pub open spec fn shrink_of(shrink: Real) -> Real {
    if shrink_ok(shrink) {
        shrink
    } else {
        lit(ONE)
    }
}

/// What the likelihood of a request depends on.
pub open spec fn plan_of(req: FitRequest, specs: Seq<Specimen>) -> Plan {
    Plan {
        model: MasterModel::named(req.model@)->0,
        shrink: shrink_of(req.shrink),
        heats: heats_of(specs),
        x_is_log: req.model@ == "CX"@,
    }
}

/// The penalised negative log-likelihood as a function of the searched values.
pub open spec fn objective_of<M: Fn(Call) -> Real>(math: M, plan: Plan, specs: Seq<Specimen>) -> spec_fn(
    Seq<Real>,
) -> Real {
    |u: Seq<Real>| nll_of(math, plan, specs, u)
}

/// Where a search of `f` from `x` ends, and the value there.
pub open spec fn end_from(f: spec_fn(Seq<Real>) -> Real, x: Seq<Real>) -> (Seq<Real>, Real) {
    let end = adaptive_run(f, start_shape(f, x, adaptive_nudge()), x.len(), STEPS as nat);
    let b = best_of(end.fv, x.len() + 1);
    (end.xs[b], end.fv[b])
}

/// Where the search for a fit from `x` ends, and the value there.
pub open spec fn found_from<M: Fn(Call) -> Real>(
    math: M,
    plan: Plan,
    specs: Seq<Specimen>,
    x: Seq<Real>,
) -> (
    Seq<Real>,
    Real,
) {
    end_from(objective_of(math, plan, specs), x)
}

/// The first start: the middle values of the curve, no offsets, a spread of 1.
pub open spec fn first_start<M: Fn(Call) -> Real>(math: M, plan: Plan) -> Seq<Real> {
    plan.model.start_of(math) + Seq::new((plan.n_heat() + 1) as nat, |i: int| lit(ZERO))
}

/// The second start: the first with every value raised, but for a smaller spread.
pub open spec fn second_start<M: Fn(Call) -> Real>(math: M, plan: Plan) -> Seq<Real> {
    let first = first_start(math, plan);
    Seq::new(first.len(), |i: int| fadd(first[i], lit(START_SHIFT))).update(
        4 + plan.n_heat() as int,
        lit(MINUS_HALF),
    )
}

/// The better end of the two searches, the first where they are equal.
pub open spec fn found<M: Fn(Call) -> Real>(
    math: M,
    plan: Plan,
    specs: Seq<Specimen>,
) -> (Seq<Real>, Real) {
    let one = found_from(math, plan, specs, first_start(math, plan));
    let two = found_from(math, plan, specs, second_start(math, plan));
    if flt(two.1, one.1) {
        two
    } else {
        one
    }
}

/// Whether every specimen has a segment.
pub open spec fn have_segments(v: Seq<&Specimen>) -> bool {
    forall|i: int| 0 <= i < v.len() ==> (#[trigger] v[i]).segments@.len() > 0
}

fn search<M: Fn(Call) -> Real, S: Fn(Print) -> String>(
    math: &M,
    show: &S,
    prob: &Problem,
    refs: &Vec<&Specimen>,
    x: &Vec<Real>,
) -> (r: (Vec<Real>, Real))
    requires
        is_math(*math),
        is_printer(*show),
        prob.well_formed(),
        have_segments(refs@),
        x@.len() == prob.plan().dimensions(),
    ensures
        (r.0@, r.1) == found_from(*math, prob.plan(), referred(refs@), x@),
        r.0@.len() == x@.len(),
{
    let ghost field = objective_of(*math, prob.plan(), referred(refs@));
    let n: usize = x.len();
    proof {
        assert(prob.plan().heats.len() == prob.heats@.len());
    }
    let f = |y: &Vec<Real>| -> (r: Real)
        requires y@.len() == n
        ensures r == field(y@)
    {
        evaluate(math, show, prob, refs, y).nll
    };
    search_adaptive(&f, x, STEPS, Ghost(field))
}

fn curvatures<M: Fn(Call) -> Real, S: Fn(Print) -> String>(
    math: &M,
    show: &S,
    prob: &Problem,
    refs: &Vec<&Specimen>,
    x: &Vec<Real>,
    f0: Real,
) -> (r: Vec<Vec<Real>>)
    requires
        is_math(*math),
        is_printer(*show),
        prob.well_formed(),
        have_segments(refs@),
        x@.len() == prob.plan().dimensions(),
    ensures
        rows(r@) == hessian_of(objective_of(*math, prob.plan(), referred(refs@)), x@, f0),
        square(rows(r@), x@.len()),
{
    let ghost field = objective_of(*math, prob.plan(), referred(refs@));
    let n: usize = x.len();
    let f = |y: &Vec<Real>| -> (r: Real)
        requires y@.len() == n
        ensures r == field(y@)
    {
        evaluate(math, show, prob, refs, y).nll
    };
    hessian(&f, x, f0, Ghost(field))
}

fn starts<M: Fn(Call) -> Real>(math: &M, prob: &Problem) -> (r: (Vec<Real>, Vec<Real>))
    requires
        is_math(*math),
        prob.well_formed(),
    ensures
        r.0@ == first_start(*math, prob.plan()),
        r.1@ == second_start(*math, prob.plan()),
        r.0@.len() == prob.plan().dimensions(),
        r.1@.len() == prob.plan().dimensions(),
{
    let ghost plan = prob.plan();
    proof {
        assert(plan.heats.len() == prob.heats@.len());
    }
    let mut one: Vec<Real> = prob.model.start(math);
    let ghost base = one@;
    let mut i: usize = 0;
    while i < prob.n_heat + 1
        invariant
            prob.well_formed(),
            i <= prob.n_heat + 1,
            one@ == base + Seq::new(i as nat, |i: int| lit(ZERO)),
        decreases prob.n_heat + 1 - i,
    {
        one.push(lit(ZERO));
        proof {
            assert(one@ =~= base + Seq::new((i + 1) as nat, |i: int| lit(ZERO)));
        }
        i = i + 1;
    }
    proof {
        assert(one@ =~= first_start(*math, plan));
    }
    let mut two: Vec<Real> = Vec::new();
    let n: usize = one.len();
    i = 0;
    while i < n
        invariant
            n == one@.len(),
            i <= n,
            two@.len() == i,
            forall|k: int| 0 <= k < i ==> #[trigger] two@[k] == fadd(one@[k], lit(START_SHIFT)),
        decreases n - i,
    {
        two.push(one[i].plus(lit(START_SHIFT)));
        i = i + 1;
    }
    two.set(prob.n_master + prob.n_heat, lit(MINUS_HALF));
    proof {
        assert(two@ =~= second_start(*math, plan));
    }
    (one, two)
}

// ---- one prediction ----

/// What every prediction of a fit rests on.
pub struct Ground {
    pub plan: Plan,
    pub specs: Seq<Specimen>,
    pub u: Seq<Real>,
    pub cov: Seq<Seq<Real>>,
    pub tmin: Real,
    pub tmax: Real,
    pub smin: Real,
    pub smax: Real,
    pub cutoff: Real,
    /// Whether a parameter is at its bound.
    pub bound: bool,
}

/// How far `x` lies outside the range from `low` to `high`.
pub open spec fn gap_of(x: Real, low: Real, high: Real) -> Real {
    if flt(x, low) {
        fsub(low, x)
    } else if flt(high, x) {
        fsub(x, high)
    } else {
        lit(ZERO)
    }
}

fn gap(x: Real, low: Real, high: Real) -> (r: Real)
    ensures
        r == gap_of(x, low, high),
{
    if x.lt(low) {
        low.minus(x)
    } else if high.lt(x) {
        x.minus(high)
    } else {
        lit(ZERO)
    }
}

/// The length of a range, no less than 1.
pub open spec fn span_of(low: Real, high: Real) -> Real {
    fmax(fsub(high, low), lit(ONE))
}

/// The bound that a request allows, by default that of the envelope.
pub open spec fn allow_of(given: Option<Real>, own: Real) -> Real {
    match given {
        Some(v) => v,
        None => own,
    }
}

fn allow(given: Option<Real>, own: Real) -> (r: Real)
    ensures
        r == allow_of(given, own),
{
    match given {
        Some(v) => v,
        None => own,
    }
}

/// What is said of a bound that a target passes.
pub open spec fn limit_text<S: Fn(Print) -> String>(
    show: S,
    head: Seq<char>,
    v: Real,
    unit: Seq<char>,
) -> Seq<char> {
    head + printed(show, Print::Plain(v)) + unit
}

fn limit<S: Fn(Print) -> String>(show: &S, head: &str, v: Real, unit: &str) -> (r: String)
    requires
        is_printer(*show),
    ensures
        r@ == limit_text(*show, head@, v, unit@),
{
    let n: String = print(show, Print::Plain(v));
    cat(cat(head, n.as_str()).as_str(), unit)
}

/// The heat that a target names, or the base.
pub open spec fn target_heat(t: TargetIn, plan: Plan) -> Seq<char> {
    match t.heat {
        Some(h) => h@,
        None => plan.heats[0],
    }
}

/// The bounds that a target passes, and whether its heat is unknown.
pub open spec fn limits_of<S: Fn(Print) -> String>(
    show: S,
    g: Ground,
    req: FitRequest,
    t: TargetIn,
    tc: Real,
) -> Seq<
    Seq<char>,
> {
    let tlo = allow_of(req.min_temp_c, g.tmin);
    let thi = allow_of(req.max_temp_c, g.tmax);
    let slo = allow_of(req.min_stress_mpa, g.smin);
    let shi = allow_of(req.max_stress_mpa, g.smax);
    let heat = target_heat(t, g.plan);
    given_if(flt(tc, tlo), limit_text(show, "温度下限 "@, tlo, "°C"@)) + given_if(
        flt(thi, tc),
        limit_text(show, "温度上限 "@, thi, "°C"@),
    ) + given_if(flt(t.stress_mpa, slo), limit_text(show, "应力下限 "@, slo, "MPa"@)) + given_if(
        flt(shi, t.stress_mpa),
        limit_text(show, "应力上限 "@, shi, "MPa"@),
    ) + given_if(
        !g.plan.heats.contains(heat),
        "炉次 "@ + heat + " 未在训练数据中（按热效应均值+方差处理）"@,
    )
}

/// Whether `x` passes neither end of a range.
pub open spec fn within_range(x: Real, low: Real, high: Real) -> bool {
    !flt(x, low) && !flt(high, x)
}

/// Whether a target passes none of the bounds: those that the request gives, by default
/// those of the envelope.
pub open spec fn allowed_of(g: Ground, req: FitRequest, t: TargetIn, tc: Real) -> bool {
    &&& within_range(tc, allow_of(req.min_temp_c, g.tmin), allow_of(req.max_temp_c, g.tmax))
    &&& within_range(
        t.stress_mpa,
        allow_of(req.min_stress_mpa, g.smin),
        allow_of(req.max_stress_mpa, g.smax),
    )
}

fn is_allowed(b: &Base, req: &FitRequest, t: &TargetIn, tc: Real) -> (r: bool)
    ensures
        r == allowed_of(b.ground(), *req, *t, tc),
{
    !tc.lt(allow(req.min_temp_c, b.tmin)) && !allow(req.max_temp_c, b.tmax).lt(tc)
        && !t.stress_mpa.lt(allow(req.min_stress_mpa, b.smin))
        && !allow(req.max_stress_mpa, b.smax).lt(t.stress_mpa)
}

/// The squares of the offsets but the first.
pub open spec fn offset_squares(offs: Seq<Real>) -> Seq<Real> {
    Seq::new((offs.len() - 1) as nat, |i: int| fmul(offs[i + 1], offs[i + 1]))
}

/// The variance of the offset of a heat that is not known.
pub open spec fn heat_variance(offs: Seq<Real>) -> Real {
    let n = (offs.len() - 1) as nat;
    fdiv(
        fsum(offset_squares(offs), n),
        fint(
            if n == 0 {
                1
            } else {
                n as int
            },
        ),
    )
}

fn unknown_heat(offs: &Vec<Real>) -> (r: Real)
    requires
        offs@.len() > 0,
    ensures
        r == heat_variance(offs@),
{
    let mut sq: Vec<Real> = Vec::new();
    let mut i: usize = 1;
    while i < offs.len()
        invariant
            1 <= i <= offs@.len(),
            sq@.len() == i - 1,
            forall|k: int| 0 <= k < i - 1 ==> #[trigger] sq@[k] == fmul(offs@[k + 1], offs@[k + 1]),
        decreases offs@.len() - i,
    {
        sq.push(offs[i].times(offs[i]));
        i = i + 1;
    }
    proof {
        assert(sq@ =~= offset_squares(offs@));
    }
    let n: usize = offs.len() - 1;
    sum(&sq).over(Real::from_count(if n == 0 { 1 } else { n as u64 }))
}

/// The risk of a prediction by its distance, high where it stands out too far or a
/// parameter is at its bound.
pub open spec fn risk_of(
    within: bool,
    ndist: Real,
    leverage: Real,
    cutoff: Real,
    bound: bool,
) -> Seq<char> {
    if flt(cutoff, leverage) || bound {
        "high"@
    } else if within {
        "low"@
    } else if flt(ndist, lit(HIGH_RISK)) {
        "medium"@
    } else {
        "high"@
    }
}

pub fn risk(within: bool, ndist: Real, leverage: Real, cutoff: Real, bound: bool) -> (r: String)
    ensures
        r@ == risk_of(within, ndist, leverage, cutoff, bound),
{
    if cutoff.lt(leverage) || bound {
        "high".to_owned()
    } else if within {
        "low".to_owned()
    } else if ndist.lt(lit(HIGH_RISK)) {
        "medium".to_owned()
    } else {
        "high".to_owned()
    }
}

/// The prediction for a target at `tk` kelvin.
pub open spec fn prediction_is<M: Fn(Call) -> Real, S: Fn(Print) -> String>(
    math: M,
    show: S,
    g: Ground,
    req: FitRequest,
    t: TargetIn,
    tk: Real,
    r: Prediction,
) -> bool {
    let plan = g.plan;
    let tc = fsub(tk, lit(ICE_POINT));
    let x = plan.x_of(math, t.stress_mpa);
    let heat = target_heat(t, plan);
    let hi = plan.heat_place(heat);
    let dt = gap_of(tc, g.tmin, g.tmax);
    let ds = gap_of(t.stress_mpa, g.smin, g.smax);
    let ndist = answer(
        math,
        Call::Sqrt(
            fadd(
                fsquare(fdiv(dt, span_of(g.tmin, g.tmax))),
                fsquare(fdiv(ds, span_of(g.smin, g.smax))),
            ),
        ),
    );
    let within = feq(dt, lit(ZERO)) && feq(ds, lit(ZERO));
    let limits = limits_of(show, g, req, t, tc);
    let allowed = allowed_of(g, req, t, tc);
    let tau = plan.tau(math, g.u);
    let var_heat = if plan.heats.contains(heat) {
        lit(ZERO)
    } else {
        heat_variance(plan.offsets(math, g.u))
    };
    let var = form_of(g.cov, grad_u_of(math, plan, tk, x, hi, g.u), true);
    let sd = answer(
        math,
        Call::Sqrt(fmax(fadd(fadd(fmul(tau, tau), var), var_heat), lit(LEAST_VARIANCE))),
    );
    let mu = plan.life(math, g.u, hi, tk, x);
    let leverage = leverage_of(math, plan, g.specs, tk, x);
    let active = limits + given_if(
        flt(g.cutoff, leverage),
        "杠杆度 "@ + printed(show, Print::Fixed3(leverage)) + " 超过截断阈值 "@ + printed(
            show,
            Print::Fixed3(g.cutoff),
        ),
    );
    let hundred = lit(HUNDRED);
    &&& r.input == (PredictionInput {
        temp_c: rounded_at(tc, hundred),
        temp_kelvin: rounded_at(tk, hundred),
        stress_mpa: t.stress_mpa,
    })
    &&& r.heat@ == heat
    &&& r.within_envelope == within
    &&& r.distance_temp_c == rounded_at(dt, hundred)
    &&& r.distance_stress_mpa == rounded_at(ds, hundred)
    &&& r.normalized_distance == rounded_at(ndist, lit(THOUSAND))
    &&& r.allowed == allowed
    &&& option_view(r.blocked_by) == (if allowed {
        None
    } else {
        Some("超出允许外推范围: "@ + joined(active, "；"@))
    })
    &&& r.risk@ == risk_of(within, ndist, leverage, g.cutoff, g.bound)
    &&& views(r.boundary_active@) == active
    &&& r.median_h == rounded_at(answer(math, Call::Pow10(mu)), hundred)
    &&& r.pi_low_h == rounded_at(
        answer(math, Call::Pow10(fsub(mu, fmul(lit(Z95), sd)))),
        hundred,
    )
    &&& r.pi_high_h == rounded_at(
        answer(math, Call::Pow10(fadd(mu, fmul(lit(Z95), sd)))),
        hundred,
    )
    &&& r.leverage == rounded_at(leverage, lit(TEN_THOUSAND))
}

/// What a prediction needs of a fit.
struct Base<'a> {
    prob: &'a Problem,
    refs: &'a Vec<&'a Specimen>,
    u: &'a Vec<Real>,
    cov: &'a Vec<Vec<Real>>,
    master: &'a Vec<Real>,
    offs: &'a Vec<Real>,
    tau: Real,
    tmin: Real,
    tmax: Real,
    smin: Real,
    smax: Real,
    cutoff: Real,
    bound: bool,
}

impl<'a> Base<'a> {
    spec fn ground(self) -> Ground {
        Ground {
            plan: self.prob.plan(),
            specs: referred(self.refs@),
            u: self.u@,
            cov: rows(self.cov@),
            tmin: self.tmin,
            tmax: self.tmax,
            smin: self.smin,
            smax: self.smax,
            cutoff: self.cutoff,
            bound: self.bound,
        }
    }

    spec fn solid<M: Fn(Call) -> Real>(self, math: M) -> bool {
        let plan = self.prob.plan();
        &&& self.prob.well_formed()
        &&& have_segments(self.refs@)
        &&& self.u@.len() == plan.dimensions()
        &&& square(rows(self.cov@), self.u@.len())
        &&& self.master@ == plan.master(math, self.u@)
        &&& self.master@.len() == 4
        &&& self.offs@ == plan.offsets(math, self.u@)
        &&& self.offs@.len() == self.prob.heats@.len()
        &&& self.tau == plan.tau(math, self.u@)
    }
}

fn limits<S: Fn(Print) -> String>(
    show: &S,
    b: &Base,
    req: &FitRequest,
    t: &TargetIn,
    tc: Real,
    heat: &str,
    known: bool,
) -> (r:
    Vec<String>)
    requires
        is_printer(*show),
        heat@ == target_heat(*t, b.ground().plan),
        known == b.ground().plan.heats.contains(heat@),
    ensures
        views(r@) == limits_of(*show, b.ground(), *req, *t, tc),
{
    let tlo: Real = allow(req.min_temp_c, b.tmin);
    let thi: Real = allow(req.max_temp_c, b.tmax);
    let slo: Real = allow(req.min_stress_mpa, b.smin);
    let shi: Real = allow(req.max_stress_mpa, b.smax);
    let s: Real = t.stress_mpa;
    let mut list: Vec<String> = Vec::new();
    push_if(&mut list, tc.lt(tlo), limit(show, "温度下限 ", tlo, "°C").as_str());
    push_if(&mut list, thi.lt(tc), limit(show, "温度上限 ", thi, "°C").as_str());
    push_if(&mut list, s.lt(slo), limit(show, "应力下限 ", slo, "MPa").as_str());
    push_if(&mut list, shi.lt(s), limit(show, "应力上限 ", shi, "MPa").as_str());
    let head: String = cat("炉次 ", heat);
    push_if(
        &mut list,
        !known,
        cat(head.as_str(), " 未在训练数据中（按热效应均值+方差处理）").as_str(),
    );
    proof {
        assert(views(list@) =~= limits_of(*show, b.ground(), *req, *t, tc));
    }
    list
}

fn predict<M: Fn(Call) -> Real, S: Fn(Print) -> String>(
    math: &M,
    show: &S,
    b: &Base,
    req: &FitRequest,
    t: &TargetIn,
    tk: Real,
) -> (r: Prediction)
    requires
        is_math(*math),
        is_printer(*show),
        b.solid(*math),
    ensures
        prediction_is(*math, *show, b.ground(), *req, *t, tk, r),
{
    let prob: &Problem = b.prob;
    let ghost g = b.ground();
    proof {
        assert(g.plan.heats.len() == prob.heats@.len());
        assert(g.plan.heats[0] == prob.heats@[0]@);
    }
    let tc: Real = tk.minus(lit(ICE_POINT));
    let x: Real = prob.x_of(math, t.stress_mpa);
    let heat: String = match &t.heat {
        Some(h) => h.clone(),
        None => prob.heats[0].clone(),
    };
    let hi: usize = prob.heat_idx(heat.as_str());
    proof {
        lemma_index_in(g.plan.heats, heat@);
    }
    let known: bool = position(&prob.heats, heat.as_str()).is_some();
    let dt: Real = gap(tc, b.tmin, b.tmax);
    let ds: Real = gap(t.stress_mpa, b.smin, b.smax);
    let tspan: Real = b.tmax.minus(b.tmin).max(lit(ONE));
    let sspan: Real = b.smax.minus(b.smin).max(lit(ONE));
    let ndist: Real = ask(
        math,
        Call::Sqrt(square_of(dt.over(tspan)).plus(square_of(ds.over(sspan)))),
    );
    let within: bool = dt.same(lit(ZERO)) && ds.same(lit(ZERO));
    let mut active: Vec<String> = limits(show, b, req, t, tc, heat.as_str(), known);
    let allowed: bool = is_allowed(b, req, t, tc);
    let grad: Vec<Real> = numeric_grad_u(math, prob, tk, x, hi, b.u);
    proof {
        assert(rows(b.cov@).len() == b.u@.len());
        assert forall|i: int| 0 <= i < b.cov@.len() implies (#[trigger] b.cov@[i])@.len()
            >= grad@.len() by {
            assert(rows(b.cov@)[i].len() == b.u@.len());
        }
    }
    let var: Real = quad_form(b.cov, &grad);
    let var_heat: Real = if known { lit(ZERO) } else { unknown_heat(b.offs) };
    let sd: Real = ask(
        math,
        Call::Sqrt(b.tau.times(b.tau).plus(var).plus(var_heat).max(lit(LEAST_VARIANCE))),
    );
    let mu: Real = prob.model.mean(b.master, tk, x).plus(b.offs[hi]);
    let median: Real = ask(math, Call::Pow10(mu));
    let low: Real = ask(math, Call::Pow10(mu.minus(lit(Z95).times(sd))));
    let high: Real = ask(math, Call::Pow10(mu.plus(lit(Z95).times(sd))));
    let leverage: Real = leverage_for(math, prob, b.refs, tk, x);
    let word: String = risk(within, ndist, leverage, b.cutoff, b.bound);
    let lev: String = print(show, Print::Fixed3(leverage));
    let cut: String = print(show, Print::Fixed3(b.cutoff));
    let head: String = cat(cat("杠杆度 ", lev.as_str()).as_str(), " 超过截断阈值 ");
    push_if(&mut active, b.cutoff.lt(leverage), cat(head.as_str(), cut.as_str()).as_str());
    let blocked_by: Option<String> = if allowed {
        None
    } else {
        let list: String = join(&active, "；");
        Some(cat("超出允许外推范围: ", list.as_str()))
    };
    let hundred: Real = lit(HUNDRED);
    Prediction {
        input: PredictionInput {
            temp_c: round_at(tc, hundred),
            temp_kelvin: round_at(tk, hundred),
            stress_mpa: t.stress_mpa,
        },
        heat,
        within_envelope: within,
        distance_temp_c: round_at(dt, hundred),
        distance_stress_mpa: round_at(ds, hundred),
        normalized_distance: round_at(ndist, lit(THOUSAND)),
        allowed,
        blocked_by,
        risk: word,
        boundary_active: active,
        median_h: round_at(median, hundred),
        pi_low_h: round_at(low, hundred),
        pi_high_h: round_at(high, hundred),
        leverage: round_at(leverage, lit(TEN_THOUSAND)),
    }
}

// ---- the fit ----

/// Why a request is refused before anything is fitted, if it is: bounds that cannot be met,
/// a model that is not known, or too few specimens.
pub open spec fn early_refusal(all: Seq<Specimen>, req: FitRequest) -> Option<Seq<char>> {
    let n = chosen(all, req.criterion@, req.damage_model, all.len()).len();
    if !req.bounds_hold() {
        Some("应力外推边界不合法"@)
    } else if MasterModel::named(req.model@) is None {
        Some(
            "未知模型 "@ + debug_text(req.model@)
                + "，仅支持 LM（Larson-Miller）或 CX（自定义受限形式）"@,
        )
    } else if n < FEWEST {
        Some(
            "准则 "@ + req.criterion@ + " 下仅有 "@ + decimal(n as int)
                + " 个可纳入样本（至少需要 4 个）；请检查失效准则与损伤模型开关"@,
        )
    } else {
        None
    }
}

/// Why a request is refused, if it is: before the fit, or for its first target that cannot
/// be used.
pub open spec fn fit_refusal(all: Seq<Specimen>, req: FitRequest) -> Option<Seq<char>> {
    match early_refusal(all, req) {
        Some(e) => Some(e),
        None => targets_refusal(req.targets@, 0),
    }
}

/// Whether a request can be fitted at all.
pub fn early_error(all: &Vec<Specimen>, req: &FitRequest) -> (r: Option<DomainError>)
    ensures
        match r {
            Some(e) => early_refusal(all@, *req) == Some(e.0@),
            None => early_refusal(all@, *req) is None,
        },
{
    if !req.bounds_ok() {
        return Some(DomainError("应力外推边界不合法".to_owned()));
    }
    if MasterModel::parse(req.model.as_str()).is_none() {
        return Some(DomainError(unknown_model(req.model.as_str())));
    }
    let (refs, _): (Vec<&Specimen>, Vec<InclusionRow>) = select_specimens(
        all,
        req.criterion.as_str(),
        req.damage_model,
    );
    proof {
        assert(referred(refs@).len() == refs@.len());
    }
    if refs.len() < FEWEST {
        return Some(DomainError(too_few(req.criterion.as_str(), refs.len())));
    }
    None
}

/// The covariance of the searched values at the minimum, and whether no ridge was needed.
pub open spec fn spread_of<M: Fn(Call) -> Real>(
    math: M,
    plan: Plan,
    specs: Seq<Specimen>,
) -> (Seq<Seq<Real>>, bool) {
    let (u, f) = found(math, plan, specs);
    cov_of(hessian_of(objective_of(math, plan, specs), u, f), lit(FIRST_RIDGE), RIDGES as nat)
}

/// Whether the note of a parameter speaks of a bound.
pub open spec fn notes_bound(params: Seq<ParamReport>) -> bool {
    exists|i: int| 0 <= i < params.len() && contains((#[trigger] params[i]).note@, "边界"@)
}

/// The leverage beyond which a prediction counts as standing out.
pub open spec fn cutoff_of(plan: Plan, n: nat) -> Real {
    fdiv(fmul(lit(TWO), fint(plan.dimensions() as int)), fint(n as int))
}

/// The report on a request.
pub open spec fn result_is<M: Fn(Call) -> Real, S: Fn(Print) -> String>(
    math: M,
    show: S,
    all: Seq<Specimen>,
    req: FitRequest,
    r: FitResult,
) -> bool {
    let specs = chosen(all, req.criterion@, req.damage_model, all.len());
    let plan = plan_of(req, specs);
    let (u, f) = found(math, plan, specs);
    let (cov, exact) = spread_of(math, plan, specs);
    let k = plan.dimensions();
    let g = Ground {
        plan,
        specs,
        u,
        cov,
        tmin: r.envelope.min_temp_c,
        tmax: r.envelope.max_temp_c,
        smin: r.envelope.min_stress_mpa,
        smax: r.envelope.max_stress_mpa,
        cutoff: cutoff_of(plan, specs.len()),
        bound: notes_bound(r.params@),
    };
    &&& r.model@ == req.model@
    &&& r.criterion@ == req.criterion@
    &&& r.damage_model == req.damage_model
    &&& params_are(math, plan.model, plan.master(math, u), u, cov, r.params@)
    &&& r.tau_log10h == plan.tau(math, u)
    &&& r.heat_offsets@.len() == plan.heats.len()
    &&& forall|i: int|
        0 <= i < r.heat_offsets@.len() ==> offset_is(
            math,
            show,
            plan,
            u,
            cov,
            i,
            #[trigger] r.heat_offsets@[i],
        )
    &&& r.n_included == specs.len()
    &&& r.n_ruptured == outcomes(specs, "ruptured"@, specs.len())
    &&& r.n_censored == outcomes(specs, "censored"@, specs.len())
    &&& r.n_variable == variables(specs, specs.len())
    &&& r.inclusion@.len() == all.len()
    &&& forall|i: int|
        0 <= i < all.len() ==> inclusion_is(
            all[i],
            req.criterion@,
            req.damage_model,
            #[trigger] r.inclusion@[i],
        )
    &&& r.residuals@.len() == specs.len()
    &&& forall|i: int|
        0 <= i < specs.len() ==> row_is(math, show, plan, u, specs[i], #[trigger] r.residuals@[i])
    &&& r.censoring.n_censored == r.n_censored
    &&& entries_are(r.residuals@, r.censoring.entries@)
    &&& envelope_is(specs, plan.heats, r.envelope)
    &&& r.predictions@.len() == req.targets@.len()
    &&& forall|i: int|
        0 <= i < req.targets@.len() ==> prediction_is(
            math,
            show,
            g,
            req,
            req.targets@[i],
            target_kelvin_of(req.targets@[i], i + 1)->Ok_0,
            #[trigger] r.predictions@[i],
        )
    &&& r.log_likelihood == rounded_at(
        fneg(sum_of(math, plan, u, specs, specs.len())),
        lit(MILLION),
    )
    &&& r.aic == rounded_at(
        fadd(fmul(lit(TWO), f), fmul(lit(TWO), fint(k as int))),
        lit(MILLION),
    )
    &&& r.n_free_params == k
    &&& r.shrink == plan.shrink
    &&& views(r.warnings@) == given_if(!shrink_ok(req.shrink), "shrink 非法，回退为 1.0"@) + given_if(
        !exact,
        "观测信息矩阵奇异，已使用岭加载估计参数协方差，区间偏保守"@,
    ) + bound_warnings(plan.model, u, 4)
    &&& r.leverage_cutoff == rounded_at(g.cutoff, lit(TEN_THOUSAND))
}

fn speaks_of_bound(params: &Vec<ParamReport>) -> (r: bool)
    ensures
        r == notes_bound(params@),
{
    let mut i: usize = 0;
    while i < params.len()
        invariant
            i <= params@.len(),
            forall|k: int| 0 <= k < i ==> !contains((#[trigger] params@[k]).note@, "边界"@),
        decreases params@.len() - i,
    {
        if has_part(params[i].note.as_str(), "边界") {
            return true;
        }
        i = i + 1;
    }
    false
}

fn heat_list(refs: &Vec<&Specimen>) -> (r: Vec<String>)
    ensures
        views(r@) == heats_of(referred(refs@)),
        r@.len() <= refs@.len(),
        refs@.len() > 0 ==> r@.len() > 0,
{
    let ghost want = heat_names(referred(refs@));
    let mut names: Vec<String> = Vec::new();
    let mut i: usize = 0;
    while i < refs.len()
        invariant
            want == heat_names(referred(refs@)),
            i <= refs@.len(),
            names@.len() == i,
            forall|k: int| 0 <= k < i ==> (#[trigger] names@[k])@ == want[k],
        decreases refs@.len() - i,
    {
        names.push(refs[i].heat.clone());
        i = i + 1;
    }
    proof {
        assert(views(names@) =~= want);
        law_set_of(want, want.len());
    }
    let r: Vec<String> = to_set(&names);
    proof {
        assert(views(r@).len() == r@.len());
    }
    r
}

fn copy_list(list: &Vec<String>) -> (r: Vec<String>)
    ensures
        views(r@) == views(list@),
        r@.len() == list@.len(),
{
    let mut out: Vec<String> = Vec::new();
    let mut i: usize = 0;
    while i < list.len()
        invariant
            i <= list@.len(),
            out@.len() == i,
            forall|k: int| 0 <= k < i ==> (#[trigger] out@[k])@ == list@[k]@,
        decreases list@.len() - i,
    {
        out.push(list[i].clone());
        i = i + 1;
    }
    proof {
        assert(views(out@) =~= views(list@));
    }
    out
}

fn predict_all<M: Fn(Call) -> Real, S: Fn(Print) -> String>(
    math: &M,
    show: &S,
    b: &Base,
    req: &FitRequest,
) -> (r: Result<
    Vec<Prediction>,
    DomainError,
>)
    requires
        is_math(*math),
        is_printer(*show),
        b.solid(*math),
    ensures
        match r {
            Ok(v) => targets_refusal(req.targets@, 0) is None && v@.len() == req.targets@.len()
                && forall|i: int|
                0 <= i < v@.len() ==> prediction_is(
                    *math,
                    *show,
                    b.ground(),
                    *req,
                    req.targets@[i],
                    target_kelvin_of(req.targets@[i], i + 1)->Ok_0,
                    #[trigger] v@[i],
                ),
            Err(e) => targets_refusal(req.targets@, 0) == Some(e.0@),
        },
{
    let mut out: Vec<Prediction> = Vec::new();
    let mut i: usize = 0;
    let n: usize = req.targets.len();
    while i < n
        invariant
            is_math(*math),
            is_printer(*show),
            b.solid(*math),
            n == req.targets@.len(),
            i <= n,
            targets_refusal(req.targets@, 0) == targets_refusal(req.targets@, i as int),
            out@.len() == i,
            forall|k: int|
                0 <= k < i ==> prediction_is(
                    *math,
                    *show,
                    b.ground(),
                    *req,
                    req.targets@[k],
                    target_kelvin_of(req.targets@[k], k + 1)->Ok_0,
                    #[trigger] out@[k],
                ),
        decreases n - i,
    {
        let t: &TargetIn = &req.targets[i];
        let tk: Real = match check_target(t, i + 1) {
            Ok(v) => v,
            Err(e) => {
                return Err(DomainError(e));
            },
        };
        out.push(predict(math, show, b, req, t, tk));
        i = i + 1;
    }
    Ok(out)
}

fn minimise<M: Fn(Call) -> Real, S: Fn(Print) -> String>(
    math: &M,
    show: &S,
    prob: &Problem,
    refs: &Vec<&Specimen>,
) -> (r: (Vec<Real>, Real))
    requires
        is_math(*math),
        is_printer(*show),
        prob.well_formed(),
        have_segments(refs@),
    ensures
        (r.0@, r.1) == found(*math, prob.plan(), referred(refs@)),
        r.0@.len() == prob.plan().dimensions(),
{
    let (one, two): (Vec<Real>, Vec<Real>) = starts(math, prob);
    let end1: (Vec<Real>, Real) = search(math, show, prob, refs, &one);
    let end2: (Vec<Real>, Real) = search(math, show, prob, refs, &two);
    if end2.1.lt(end1.1) {
        end2
    } else {
        end1
    }
}

fn spread<M: Fn(Call) -> Real, S: Fn(Print) -> String>(
    math: &M,
    show: &S,
    prob: &Problem,
    refs: &Vec<&Specimen>,
    u: &Vec<Real>,
    f: Real,
) -> (r: (Vec<Vec<Real>>, bool))
    requires
        is_math(*math),
        is_printer(*show),
        prob.well_formed(),
        have_segments(refs@),
        u@.len() == prob.plan().dimensions(),
        (u@, f) == found(*math, prob.plan(), referred(refs@)),
    ensures
        (rows(r.0@), r.1) == spread_of(*math, prob.plan(), referred(refs@)),
        square(rows(r.0@), u@.len()),
{
    let hess: Vec<Vec<Real>> = curvatures(math, show, prob, refs, u, f);
    proof {
        assert(rows(hess@).len() == u@.len());
    }
    cov_estimate(&hess)
}

fn too_few(criterion: &str, n: usize) -> (r: String)
    ensures
        r@ == "准则 "@ + criterion@ + " 下仅有 "@ + decimal(n as int)
            + " 个可纳入样本（至少需要 4 个）；请检查失效准则与损伤模型开关"@,
{
    let head: String = cat(cat("准则 ", criterion).as_str(), " 下仅有 ");
    let count: String = show_int(n as u64);
    cat(
        cat(head.as_str(), count.as_str()).as_str(),
        " 个可纳入样本（至少需要 4 个）；请检查失效准则与损伤模型开关",
    )
}

fn unknown_model(model: &str) -> (r: String)
    ensures
        r@ == "未知模型 "@ + debug_text(model@)
            + "，仅支持 LM（Larson-Miller）或 CX（自定义受限形式）"@,
{
    let q: String = quoted(model);
    cat(
        cat("未知模型 ", q.as_str()).as_str(),
        "，仅支持 LM（Larson-Miller）或 CX（自定义受限形式）",
    )
}

#[verifier::rlimit(40)]
fn report<M: Fn(Call) -> Real, S: Fn(Print) -> String>(
    req: &FitRequest,
    model: MasterModel,
    refs: Vec<&Specimen>,
    inclusion: Vec<InclusionRow>,
    math: &M,
    show: &S,
    Ghost(all): Ghost<Seq<Specimen>>,
) -> (r: Result<FitResult, DomainError>)
    requires
        is_math(*math),
        is_printer(*show),
        MasterModel::named(req.model@) == Some(model),
        referred(refs@) == chosen(all, req.criterion@, req.damage_model, all.len()),
        FEWEST <= refs@.len() <= usize::MAX - 8,
        have_segments(refs@),
        inclusion@.len() == all.len(),
        forall|i: int|
            0 <= i < all.len() ==> inclusion_is(
                all[i],
                req.criterion@,
                req.damage_model,
                #[trigger] inclusion@[i],
            ),
    ensures
        match r {
            Ok(v) => targets_refusal(req.targets@, 0) is None && result_is(
                *math,
                *show,
                all,
                *req,
                v,
            ),
            Err(e) => targets_refusal(req.targets@, 0) == Some(e.0@),
        },
{
    let ghost specs = referred(refs@);
    proof {
        assert(specs.len() == refs@.len());
    }
    let heats: Vec<String> = heat_list(&refs);
    let mut warnings: Vec<String> = Vec::new();
    let usable: bool = req.shrink.is_finite() && lit(ZERO).le(req.shrink);
    push_if(&mut warnings, !usable, "shrink 非法，回退为 1.0");
    let prob: Problem = Problem {
        model,
        n_master: model.n_master(),
        n_heat: heats.len() - 1,
        shrink: if usable { req.shrink } else { lit(ONE) },
        heats: copy_list(&heats),
        x_is_log: same(req.model.as_str(), "CX"),
    };
    let ghost plan = plan_of(*req, specs);
    proof {
        assert(prob.plan() == plan);
        assert(plan.heats.len() == prob.heats@.len());
    }
    let (uhat, fmin): (Vec<Real>, Real) = minimise(math, show, &prob, &refs);
    let eval: Eval = evaluate(math, show, &prob, &refs, &uhat);
    let (cov, exact): (Vec<Vec<Real>>, bool) = spread(math, show, &prob, &refs, &uhat, fmin);
    push_if(
        &mut warnings,
        !exact,
        "观测信息矩阵奇异，已使用岭加载估计参数协方差，区间偏保守",
    );
    let (master, offs, tau) = prob.decode(math, &uhat);
    let params: Vec<ParamReport> = params_out(math, model, &master, &uhat, &cov, &mut warnings);
    let heat_offsets: Vec<ParamReport> = offsets_out(math, show, &prob, &offs, &uhat, &cov);
    let k: usize = prob.n_master + prob.n_heat + 1;
    let kk: Real = Real::from_count(k as u64);
    let aic: Real = lit(TWO).times(fmin).plus(lit(TWO).times(kk));
    let env: Envelope = envelope(&refs, heats);
    let cutoff: Real = lit(TWO).times(kk).over(Real::from_count(refs.len() as u64));
    let b: Base = Base {
        prob: &prob,
        refs: &refs,
        u: &uhat,
        cov: &cov,
        master: &master,
        offs: &offs,
        tau,
        tmin: env.min_temp_c,
        tmax: env.max_temp_c,
        smin: env.min_stress_mpa,
        smax: env.max_stress_mpa,
        cutoff,
        bound: speaks_of_bound(&params),
    };
    let predictions: Vec<Prediction> = match predict_all(math, show, &b, req) {
        Ok(v) => v,
        Err(e) => {
            return Err(e);
        },
    };
    let entries = censor_entries(&eval.rows);
    let n_censored: usize = count_outcomes(&refs, "censored");
    let residuals: Vec<ResidualRow> = eval.rows;
    proof {
        assert forall|i: int| 0 <= i < specs.len() implies row_is(
            *math,
            *show,
            plan,
            uhat@,
            specs[i],
            #[trigger] residuals@[i],
        ) by {
            assert(specs[i] == *refs@[i]);
        }
        assert(views(warnings@) =~= given_if(!shrink_ok(req.shrink), "shrink 非法，回退为 1.0"@)
            + given_if(
            !exact,
            "观测信息矩阵奇异，已使用岭加载估计参数协方差，区间偏保守"@,
        ) + bound_warnings(plan.model, uhat@, 4));
    }
    Ok(
        FitResult {
            model: req.model.clone(),
            criterion: req.criterion.clone(),
            damage_model: req.damage_model,
            params,
            tau_log10h: tau,
            heat_offsets,
            n_included: refs.len(),
            n_ruptured: count_outcomes(&refs, "ruptured"),
            n_censored,
            n_variable: count_variables(&refs),
            inclusion,
            residuals,
            censoring: Censoring { n_censored, entries },
            envelope: env,
            predictions,
            log_likelihood: round_at(eval.logl, lit(MILLION)),
            aic: round_at(aic, lit(MILLION)),
            n_free_params: k,
            shrink: prob.shrink,
            warnings,
            leverage_cutoff: round_at(cutoff, lit(TEN_THOUSAND)),
        },
    )
}

/// Fits the model of a request to the specimens of its criterion and predicts its targets.
/// Every specimen that takes part has a segment.
pub fn fit<M: Fn(Call) -> Real, S: Fn(Print) -> String>(
    all: &Vec<Specimen>,
    req: &FitRequest,
    math: &M,
    show: &S,
) -> (r:
    Result<FitResult, DomainError>)
    requires
        is_math(*math),
        is_printer(*show),
        all@.len() + 8 <= usize::MAX,
        early_refusal(all@, *req) is None ==> forall|i: int|
            0 <= i < all@.len() && left_out(#[trigger] all@[i], req.criterion@, req.damage_model)
                is None ==> all@[i].segments@.len() > 0,
    ensures
        match r {
            Ok(v) => fit_refusal(all@, *req) is None && result_is(*math, *show, all@, *req, v),
            Err(e) => fit_refusal(all@, *req) == Some(e.0@),
        },
{
    match early_error(all, req) {
        Some(e) => {
            return Err(e);
        },
        None => {},
    }
    let model: MasterModel = MasterModel::parse(req.model.as_str()).unwrap();
    let (refs, inclusion): (Vec<&Specimen>, Vec<InclusionRow>) = select_specimens(
        all,
        req.criterion.as_str(),
        req.damage_model,
    );
    let ghost specs = referred(refs@);
    proof {
        assert(specs.len() == refs@.len());
        lemma_chosen_segments(all@, req.criterion@, req.damage_model, all@.len());
        assert forall|i: int| 0 <= i < refs@.len() implies (#[trigger] refs@[i]).segments@.len() > 0 by {
            assert(specs[i] == *refs@[i]);
        }
    }
    report(req, model, refs, inclusion, math, show, Ghost(all@))
}

proof fn lemma_chosen_segments(all: Seq<Specimen>, criterion: Seq<char>, damage_model: bool, k: nat)
    requires
        k <= all.len(),
        forall|i: int|
            0 <= i < all.len() && left_out(#[trigger] all[i], criterion, damage_model) is None
                ==> all[i].segments@.len() > 0,
    ensures
        forall|i: int|
            0 <= i < chosen(all, criterion, damage_model, k).len() ==> (#[trigger] chosen(
                all,
                criterion,
                damage_model,
                k,
            )[i]).segments@.len() > 0,
    decreases k,
{
    if k > 0 {
        lemma_chosen_segments(all, criterion, damage_model, (k - 1) as nat);
    }
}

// ---- laws ----

/// A prediction is allowed just where its target lies within the bounds that the request
/// gives, by default those of the envelope, whatever its heat; where it is not, the report
/// says what blocks it, so that no such prediction passes for one that may be used.
pub proof fn law_allowed_within_bounds<M: Fn(Call) -> Real, S: Fn(Print) -> String>(
    math: M,
    show: S,
    g: Ground,
    req: FitRequest,
    t: TargetIn,
    tk: Real,
    r: Prediction,
)
    requires
        prediction_is(math, show, g, req, t, tk, r),
        !fsub(tk, lit(ICE_POINT)).nan(),
        !t.stress_mpa.nan(),
        !allow_of(req.min_temp_c, g.tmin).nan(),
        !allow_of(req.max_temp_c, g.tmax).nan(),
        !allow_of(req.min_stress_mpa, g.smin).nan(),
        !allow_of(req.max_stress_mpa, g.smax).nan(),
    ensures
        ({
            let tc = fsub(tk, lit(ICE_POINT));
            r.allowed <==> {
                &&& fle(allow_of(req.min_temp_c, g.tmin), tc)
                &&& fle(tc, allow_of(req.max_temp_c, g.tmax))
                &&& fle(allow_of(req.min_stress_mpa, g.smin), t.stress_mpa)
                &&& fle(t.stress_mpa, allow_of(req.max_stress_mpa, g.smax))
            }
        }),
        r.blocked_by is Some <==> !r.allowed,
{
}

/// Every bound that a target passes is named in the report with its value.
pub proof fn law_passed_bounds_are_named<M: Fn(Call) -> Real, S: Fn(Print) -> String>(
    math: M,
    show: S,
    g: Ground,
    req: FitRequest,
    t: TargetIn,
    tk: Real,
    r: Prediction,
)
    requires
        prediction_is(math, show, g, req, t, tk, r),
    ensures
        ({
            let tc = fsub(tk, lit(ICE_POINT));
            let tlo = allow_of(req.min_temp_c, g.tmin);
            let thi = allow_of(req.max_temp_c, g.tmax);
            let slo = allow_of(req.min_stress_mpa, g.smin);
            let shi = allow_of(req.max_stress_mpa, g.smax);
            let named = views(r.boundary_active@);
            &&& flt(tc, tlo) ==> named.contains(limit_text(show, "温度下限 "@, tlo, "°C"@))
            &&& flt(thi, tc) ==> named.contains(limit_text(show, "温度上限 "@, thi, "°C"@))
            &&& flt(t.stress_mpa, slo) ==> named.contains(
                limit_text(show, "应力下限 "@, slo, "MPa"@),
            )
            &&& flt(shi, t.stress_mpa) ==> named.contains(
                limit_text(show, "应力上限 "@, shi, "MPa"@),
            )
        }),
{
    let tc = fsub(tk, lit(ICE_POINT));
    let tlo = allow_of(req.min_temp_c, g.tmin);
    let thi = allow_of(req.max_temp_c, g.tmax);
    let slo = allow_of(req.min_stress_mpa, g.smin);
    let shi = allow_of(req.max_stress_mpa, g.smax);
    let heat = target_heat(t, g.plan);
    let limits = limits_of(show, g, req, t, tc);
    let named = views(r.boundary_active@);
    let a = given_if(flt(tc, tlo), limit_text(show, "温度下限 "@, tlo, "°C"@));
    let b = given_if(flt(thi, tc), limit_text(show, "温度上限 "@, thi, "°C"@));
    let c = given_if(flt(t.stress_mpa, slo), limit_text(show, "应力下限 "@, slo, "MPa"@));
    let d = given_if(flt(shi, t.stress_mpa), limit_text(show, "应力上限 "@, shi, "MPa"@));
    let e = given_if(
        !g.plan.heats.contains(heat),
        "炉次 "@ + heat + " 未在训练数据中（按热效应均值+方差处理）"@,
    );
    assert(limits == a + b + c + d + e);
    assert(named.len() >= limits.len());
    if a.len() > 0 {
        assert(named[0] == a[0]);
    }
    if b.len() > 0 {
        assert(named[a.len() as int] == b[0]);
    }
    if c.len() > 0 {
        assert(named[(a.len() + b.len()) as int] == c[0]);
    }
    if d.len() > 0 {
        assert(named[(a.len() + b.len() + c.len()) as int] == d[0]);
    }
}

/// The risk is low only inside the envelope.
pub proof fn law_low_risk_is_inside<M: Fn(Call) -> Real, S: Fn(Print) -> String>(
    math: M,
    show: S,
    g: Ground,
    req: FitRequest,
    t: TargetIn,
    tk: Real,
    r: Prediction,
)
    requires
        prediction_is(math, show, g, req, t, tk, r),
        r.risk@ == "low"@,
    ensures
        r.within_envelope,
{
    reveal_strlit("low");
    reveal_strlit("medium");
    reveal_strlit("high");
    assert("low"@.len() == 3);
    assert("medium"@.len() == 6);
    assert("high"@.len() == 4);
}

/// The interval of a prediction holds its median, also as they are reported.
pub proof fn law_interval_holds_median<M: Fn(Call) -> Real, S: Fn(Print) -> String>(
    math: M,
    show: S,
    g: Ground,
    req: FitRequest,
    t: TargetIn,
    tk: Real,
    r: Prediction,
)
    requires
        is_faithful(math),
        prediction_is(math, show, g, req, t, tk, r),
        ({
            let hi = g.plan.heat_place(target_heat(t, g.plan));
            g.plan.life(math, g.u, hi, tk, g.plan.x_of(math, t.stress_mpa)).finite()
        }),
    ensures
        fle(r.pi_low_h, r.median_h),
        fle(r.median_h, r.pi_high_h),
{
    let plan = g.plan;
    let heat = target_heat(t, plan);
    let hi = plan.heat_place(heat);
    let x = plan.x_of(math, t.stress_mpa);
    let mu = plan.life(math, g.u, hi, tk, x);
    let tau = plan.tau(math, g.u);
    let var_heat = if plan.heats.contains(heat) {
        lit(ZERO)
    } else {
        heat_variance(plan.offsets(math, g.u))
    };
    let var = form_of(g.cov, grad_u_of(math, plan, tk, x, hi, g.u), true);
    let total = fmax(fadd(fadd(fmul(tau, tau), var), var_heat), lit(LEAST_VARIANCE));
    let sd = answer(math, Call::Sqrt(total));
    assert(fle(lit(ZERO), total));
    law_product_monotone(sd, sd, lit(Z95));
    law_commutes(sd, lit(Z95));
    let reach = fmul(lit(Z95), sd);
    law_reach(mu, reach);
    let low = answer(math, Call::Pow10(fsub(mu, reach)));
    let mid = answer(math, Call::Pow10(mu));
    let high = answer(math, Call::Pow10(fadd(mu, reach)));
    lemma_rounded_monotone(low, mid, lit(HUNDRED));
    lemma_rounded_monotone(mid, high, lit(HUNDRED));
}

proof fn lemma_rounded_monotone(a: Real, b: Real, scale: Real)
    requires
        fle(lit(ZERO), a),
        fle(a, b),
        flt(lit(ZERO), scale),
        scale.finite(),
    ensures
        fle(rounded_at(a, scale), rounded_at(b, scale)),
{
    law_product_monotone(a, b, scale);
    law_integer_monotone(fmul(a, scale), fmul(b, scale));
    law_quotient_monotone(finteger(fmul(a, scale)), finteger(fmul(b, scale)), scale);
}

/// The probability that a specimen of constant load outlives its time is reported as less
/// than 1.
pub proof fn law_survival_below_one<M: Fn(Call) -> Real, S: Fn(Print) -> String>(
    math: M,
    show: S,
    all: Seq<Specimen>,
    req: FitRequest,
    r: FitResult,
    i: int,
)
    requires
        result_is(math, show, all, req, r),
        0 <= i < r.residuals@.len(),
        r.residuals@[i].censored,
        !r.residuals@[i].variable,
    ensures
        r.residuals@[i].censor_tail_probability matches Some(p) && fle(
            p,
            fsub(lit(ONE), lit(TINY)),
        ) && fle(p, lit(ONE)),
{
    let specs = chosen(all, req.criterion@, req.damage_model, all.len());
    let plan = plan_of(req, specs);
    let (u, f) = found(math, plan, specs);
    assert(row_is(math, show, plan, u, specs[i], r.residuals@[i]));
    law_reach(lit(ONE), lit(TINY));
}

/// The first heat in order is the base: its offset is reported as zero, without an error.
pub proof fn law_base_offset_is_zero<M: Fn(Call) -> Real, S: Fn(Print) -> String>(
    math: M,
    show: S,
    all: Seq<Specimen>,
    req: FitRequest,
    r: FitResult,
)
    requires
        result_is(math, show, all, req, r),
        r.heat_offsets@.len() > 0,
    ensures
        r.heat_offsets@[0].value == lit(ZERO),
        r.heat_offsets@[0].se is None,
{
    let specs = chosen(all, req.criterion@, req.damage_model, all.len());
    let plan = plan_of(req, specs);
    let (u, f) = found(math, plan, specs);
    assert(offset_is(math, show, plan, u, spread_of(math, plan, specs).0, 0, r.heat_offsets@[0]));
}

/// A censored specimen is never reported with a residual, nor is one of variable load.
pub proof fn law_censored_has_no_residual<M: Fn(Call) -> Real, S: Fn(Print) -> String>(
    math: M,
    show: S,
    all: Seq<Specimen>,
    req: FitRequest,
    r: FitResult,
    i: int,
)
    requires
        result_is(math, show, all, req, r),
        0 <= i < r.residuals@.len(),
    ensures
        r.residuals@[i].residual is Some <==> !r.residuals@[i].censored && !r.residuals@[i].variable,
        r.residuals@[i].censor_tail_probability is Some <==> r.residuals@[i].censored,
{
    let specs = chosen(all, req.criterion@, req.damage_model, all.len());
    let plan = plan_of(req, specs);
    let (u, f) = found(math, plan, specs);
    assert(row_is(math, show, plan, u, specs[i], r.residuals@[i]));
}

/// A fit is never worse than where its searches start, wherever the likelihood is a number.
pub proof fn law_fit_descends<M: Fn(Call) -> Real>(math: M, plan: Plan, specs: Seq<Specimen>)
    requires
        numeric(objective_of(math, plan, specs)),
        0 < plan.heats.len() < usize::MAX - 8,
    ensures
        ({
            let f = objective_of(math, plan, specs);
            let (u, v) = found(math, plan, specs);
            &&& v == f(u)
            &&& fle(v, f(first_start(math, plan)))
            &&& fle(v, f(second_start(math, plan)))
        }),
{
    lemma_better_end(
        objective_of(math, plan, specs),
        first_start(math, plan),
        second_start(math, plan),
    );
}

proof fn lemma_better_end(f: spec_fn(Seq<Real>) -> Real, x: Seq<Real>, y: Seq<Real>)
    requires
        numeric(f),
        0 < x.len() < usize::MAX,
        0 < y.len() < usize::MAX,
    ensures
        ({
            let one = end_from(f, x);
            let two = end_from(f, y);
            let (u, v) = if flt(two.1, one.1) {
                two
            } else {
                one
            };
            v == f(u) && fle(v, f(x)) && fle(v, f(y))
        }),
{
    law_adaptive_search_descends(f, x, STEPS as nat);
    law_adaptive_search_descends(f, y, STEPS as nat);
}

/// A request that is run again on the same specimens gives the same numbers and the same
/// verdicts.
pub proof fn law_rerun_reproduces<M: Fn(Call) -> Real, S: Fn(Print) -> String>(
    math: M,
    show: S,
    all: Seq<Specimen>,
    req: FitRequest,
    a: FitResult,
    b: FitResult,
)
    requires
        result_is(math, show, all, req, a),
        result_is(math, show, all, req, b),
    ensures
        a.aic == b.aic,
        a.log_likelihood == b.log_likelihood,
        a.tau_log10h == b.tau_log10h,
        a.n_included == b.n_included,
        a.params@.len() == b.params@.len(),
        forall|i: int|
            0 <= i < a.params@.len() ==> (#[trigger] a.params@[i]).value == b.params@[i].value
                && a.params@[i].se == b.params@[i].se,
        a.residuals@.len() == b.residuals@.len(),
        forall|i: int|
            0 <= i < a.residuals@.len() ==> (#[trigger] a.residuals@[i]).specimen_id@
                == b.residuals@[i].specimen_id@ && a.residuals@[i].contribution
                == b.residuals@[i].contribution,
        a.predictions@.len() == b.predictions@.len(),
        forall|i: int|
            0 <= i < a.predictions@.len() ==> same_prediction(
                #[trigger] a.predictions@[i],
                b.predictions@[i],
            ),
{
    let specs = chosen(all, req.criterion@, req.damage_model, all.len());
    let plan = plan_of(req, specs);
    let u = found(math, plan, specs).0;
    let cov = spread_of(math, plan, specs).0;
    assert forall|i: int| 0 <= i < 4 implies (#[trigger] a.params@[i]).value == b.params@[i].value
        && a.params@[i].se == b.params@[i].se && a.params@[i].note@ == b.params@[i].note@ by {
    }
    assert(notes_bound(a.params@) == notes_bound(b.params@)) by {
        if notes_bound(a.params@) {
            let i = choose|i: int|
                0 <= i < a.params@.len() && contains((#[trigger] a.params@[i]).note@, "边界"@);
            assert(contains(b.params@[i].note@, "边界"@));
        }
        if notes_bound(b.params@) {
            let i = choose|i: int|
                0 <= i < b.params@.len() && contains((#[trigger] b.params@[i]).note@, "边界"@);
            assert(contains(a.params@[i].note@, "边界"@));
        }
    }
    assert forall|i: int| 0 <= i < a.residuals@.len() implies (#[trigger] a.residuals@[i]).specimen_id@
        == b.residuals@[i].specimen_id@ && a.residuals@[i].contribution
        == b.residuals@[i].contribution by {
        assert(row_is(math, show, plan, u, specs[i], a.residuals@[i]));
        assert(row_is(math, show, plan, u, specs[i], b.residuals@[i]));
    }
    assert forall|i: int| 0 <= i < a.predictions@.len() implies same_prediction(
        #[trigger] a.predictions@[i],
        b.predictions@[i],
    ) by {
        let g = Ground {
            plan,
            specs,
            u,
            cov,
            tmin: a.envelope.min_temp_c,
            tmax: a.envelope.max_temp_c,
            smin: a.envelope.min_stress_mpa,
            smax: a.envelope.max_stress_mpa,
            cutoff: cutoff_of(plan, specs.len()),
            bound: notes_bound(a.params@),
        };
        let tk = target_kelvin_of(req.targets@[i], i + 1)->Ok_0;
        assert(prediction_is(math, show, g, req, req.targets@[i], tk, a.predictions@[i]));
        assert(prediction_is(math, show, g, req, req.targets@[i], tk, b.predictions@[i]));
    }
}

/// Whether two predictions agree.
pub open spec fn same_prediction(a: Prediction, b: Prediction) -> bool {
    &&& a.median_h == b.median_h
    &&& a.pi_low_h == b.pi_low_h
    &&& a.pi_high_h == b.pi_high_h
    &&& a.allowed == b.allowed
    &&& a.risk@ == b.risk@
    &&& a.leverage == b.leverage
}

} // verus!
