//! The likelihood of the shared curve with an offset for each heat.
//!
//! The searched values are those of the curve, then one for each heat but the first, then
//! the logarithm of the spread. The first heat is the base, whose offset is zero.
use vstd::prelude::*;
use crate::fit::ResidualRow;
use crate::fit::master::{clamp, fclamp, law_mapped_within, map_param, map_param_of, MasterModel};
use crate::fit::select::referred;
use crate::host::{answer, ask, is_faithful, is_math, is_printer, print, printed, Call, Print};
use crate::ingest::ICE_POINT;
use crate::normal::{fsquare, law_survival_is_probability, law_weight_not_positive, log_phi_cdf,
    log_phi_cdf_of, log_phi_pdf, log_phi_pdf_of, square_of, survival_of, SIX};
use crate::number::error::size_of;
use crate::normal::values::{is_accurate, is_rounding_apart, law_weight_falls};
use crate::number::{fle, flt, fmax, fmin, fneg, lit, Real};
use crate::number::arith::{fadd, fdiv, fmul, fsub};
use crate::number::consts::{FOUR, ONE, TWO, ZERO};
use crate::number::order::{law_difference_antitone, law_division_monotone, law_negation,
    law_reach, law_sum_monotone, law_symmetric_range, lemma_ranks_values};
use crate::specimen::{Segment, Specimen};
use crate::text::{cat, index_in, position, same, views};

verus! {

/// -2, the least offset of a heat.
pub const OFFSET_LOW: u64 = 0xc000_0000_0000_0000;

/// -8, the least logarithm of the spread.
pub const TAU_LOW: u64 = 0xc020_0000_0000_0000;

/// 1e-12
pub const TINY: u64 = 0x3d71_9799_812d_ea11;

/// The logarithm of 10.
pub const LN_10: u64 = 0x4002_6bb1_bbb5_5516;

/// What the likelihood depends on besides specimens and searched values.
pub struct Plan {
    pub model: MasterModel,
    pub shrink: Real,
    pub heats: Seq<Seq<char>>,
    /// Whether the curve is in the log10 of the stress.
    pub x_is_log: bool,
}

impl Plan {
    /// The number of heats with a searched offset.
    pub open spec fn n_heat(self) -> nat {
        (self.heats.len() - 1) as nat
    }

    /// The number of searched values.
    pub open spec fn dimensions(self) -> nat {
        4 + self.n_heat() + 1
    }

    /// What stands for a stress in the curve.
    pub open spec fn x_of<M: Fn(Call) -> Real>(self, math: M, stress_mpa: Real) -> Real {
        if self.x_is_log {
            answer(math, Call::Log10(stress_mpa))
        } else {
            stress_mpa
        }
    }

    /// The parameters of the curve.
    pub open spec fn master<M: Fn(Call) -> Real>(self, math: M, u: Seq<Real>) -> Seq<Real> {
        let b = self.model.bounds_of();
        Seq::new(4, |i: int| map_param_of(math, u[i], b[i].0, b[i].1))
    }

    /// The offset of the `i`-th heat.
    pub open spec fn offset<M: Fn(Call) -> Real>(self, math: M, u: Seq<Real>, i: int) -> Real {
        if i == 0 {
            lit(ZERO)
        } else {
            map_param_of(math, u[4 + i - 1], lit(OFFSET_LOW), lit(TWO))
        }
    }

    pub open spec fn offsets<M: Fn(Call) -> Real>(self, math: M, u: Seq<Real>) -> Seq<Real> {
        Seq::new(self.heats.len(), |i: int| self.offset(math, u, i))
    }

    /// The spread of the log10 lives.
    pub open spec fn tau<M: Fn(Call) -> Real>(self, math: M, u: Seq<Real>) -> Real {
        answer(math, Call::Exp(fclamp(u[4 + self.n_heat() as int], lit(TAU_LOW), lit(FOUR))))
    }

    /// The place of a heat; a heat that is not known counts as the base.
    pub open spec fn heat_place(self, heat: Seq<char>) -> int {
        match index_in(self.heats, heat) {
            Some(i) => i,
            None => 0,
        }
    }

    /// The shrinkage of the first `k` offsets.
    pub open spec fn penalty_of<M: Fn(Call) -> Real>(self, math: M, u: Seq<Real>, k: nat) -> Real
        decreases k,
    {
        if k == 0 {
            lit(ZERO)
        } else {
            let b = self.offset(math, u, k as int);
            fadd(self.penalty_of(math, u, (k - 1) as nat), fmul(fmul(self.shrink, b), b))
        }
    }

    /// The mean log10 life of a heat at a temperature and what stands for a stress.
    pub open spec fn life<M: Fn(Call) -> Real>(
        self,
        math: M,
        u: Seq<Real>,
        hi: int,
        tk: Real,
        x: Real,
    ) -> Real {
        fadd(self.model.mean_of(self.master(math, u), tk, x), self.offset(math, u, hi))
    }
}

pub struct Problem {
    pub model: MasterModel,
    pub n_master: usize,
    pub n_heat: usize,
    pub shrink: Real,
    pub heats: Vec<String>,
    /// Whether the curve is in the log10 of the stress.
    pub x_is_log: bool,
}

impl Problem {
    pub open spec fn plan(self) -> Plan {
        Plan {
            model: self.model,
            shrink: self.shrink,
            heats: views(self.heats@),
            x_is_log: self.x_is_log,
        }
    }

    /// Whether there is a base heat, and the counts are right.
    pub open spec fn well_formed(self) -> bool {
        &&& self.heats@.len() > 0
        &&& self.heats@.len() + 8 <= usize::MAX
        &&& self.n_master == 4
        &&& self.n_heat == self.heats@.len() - 1
    }

    pub fn x_of<M: Fn(Call) -> Real>(&self, math: &M, stress_mpa: Real) -> (r: Real)
        requires
            is_math(*math),
        ensures
            r == self.plan().x_of(*math, stress_mpa),
    {
        if self.x_is_log {
            ask(math, Call::Log10(stress_mpa))
        } else {
            stress_mpa
        }
    }

    /// The parameters, the offsets and the spread that the searched values stand for.
    pub fn decode<M: Fn(Call) -> Real>(&self, math: &M, u: &Vec<Real>) -> (r: (Vec<Real>, Vec<Real>, Real))
        requires
            is_math(*math),
            self.well_formed(),
            u@.len() == self.plan().dimensions(),
        ensures
            r.0@ == self.plan().master(*math, u@),
            r.0@.len() == 4,
            r.1@ == self.plan().offsets(*math, u@),
            r.1@.len() == self.heats@.len(),
            r.2 == self.plan().tau(*math, u@),
    {
        let bnds: Vec<(Real, Real)> = self.model.bounds();
        let mut master: Vec<Real> = Vec::new();
        let ghost plan = self.plan();
        proof {
            assert(plan.heats.len() == self.heats@.len());
        }
        let mut i: usize = 0;
        while i < self.n_master
            invariant
                is_math(*math),
                self.well_formed(),
                plan == self.plan(),
                bnds@ == self.model.bounds_of(),
                bnds@.len() == 4,
                u@.len() >= 4,
                i <= 4,
                master@ == plan.master(*math, u@).take(i as int),
            decreases self.n_master - i,
        {
            let (lo, up) = bnds[i];
            master.push(map_param(math, u[i], lo, up));
            proof {
                assert(master@ =~= plan.master(*math, u@).take(i + 1));
            }
            i = i + 1;
        }
        proof {
            assert(master@ =~= plan.master(*math, u@));
        }
        let mut offs: Vec<Real> = Vec::new();
        offs.push(lit(ZERO));
        i = 0;
        proof {
            assert(offs@ =~= plan.offsets(*math, u@).take(1));
        }
        while i < self.n_heat
            invariant
                is_math(*math),
                self.well_formed(),
                plan == self.plan(),
                plan.heats.len() == self.heats@.len(),
                u@.len() == plan.dimensions(),
                i <= self.n_heat,
                offs@ == plan.offsets(*math, u@).take(i + 1),
            decreases self.n_heat - i,
        {
            offs.push(map_param(math, u[self.n_master + i], lit(OFFSET_LOW), lit(TWO)));
            proof {
                assert(offs@ =~= plan.offsets(*math, u@).take(i + 2));
            }
            i = i + 1;
        }
        proof {
            assert(offs@ =~= plan.offsets(*math, u@));
        }
        let t: Real = clamp(u[self.n_master + self.n_heat], lit(TAU_LOW), lit(FOUR));
        (master, offs, ask(math, Call::Exp(t)))
    }

    pub fn heat_idx(&self, heat: &str) -> (r: usize)
        requires
            self.heats@.len() > 0,
        ensures
            r == self.plan().heat_place(heat@),
            r < self.heats@.len(),
    {
        match position(&self.heats, heat) {
            Some(i) => i,
            None => 0,
        }
    }

    pub fn penalty<M: Fn(Call) -> Real>(&self, math: &M, u: &Vec<Real>) -> (r: Real)
        requires
            is_math(*math),
            self.well_formed(),
            u@.len() == self.plan().dimensions(),
        ensures
            r == self.plan().penalty_of(*math, u@, self.plan().n_heat()),
    {
        let ghost plan = self.plan();
        let mut p: Real = lit(ZERO);
        let mut i: usize = 0;
        proof {
            assert(plan.heats.len() == self.heats@.len());
        }
        while i < self.n_heat
            invariant
                is_math(*math),
                self.well_formed(),
                plan == self.plan(),
                plan.heats.len() == self.heats@.len(),
                u@.len() == plan.dimensions(),
                i <= self.n_heat,
                p == plan.penalty_of(*math, u@, i as nat),
            decreases self.n_heat - i,
        {
            let b: Real = map_param(math, u[self.n_master + i], lit(OFFSET_LOW), lit(TWO));
            p = p.plus(self.shrink.times(b).times(b));
            i = i + 1;
        }
        p
    }
}

// ---- one specimen ----

pub open spec fn is_censored(s: Specimen) -> bool {
    s.outcome@ == "censored"@
}

/// What is computed of a specimen.
pub struct Score {
    /// The share of a segment's life, summed over the segments, where the load varies.
    pub damage: Real,
    pub x: Real,
    pub mu: Real,
    pub z: Real,
    /// The logarithm of the likelihood.
    pub weight: Real,
}

/// The damage of the first `k` segments, and the variance of it.
pub open spec fn damage_of<M: Fn(Call) -> Real>(
    math: M,
    plan: Plan,
    u: Seq<Real>,
    hi: int,
    segs: Seq<Segment>,
    k: nat,
) -> (Real, Real)
    decreases k,
{
    if k == 0 {
        (lit(ZERO), lit(ZERO))
    } else {
        let (d, v) = damage_of(math, plan, u, hi, segs, (k - 1) as nat);
        let g = segs[k - 1];
        let mu = plan.life(math, u, hi, g.temp_kelvin, plan.x_of(math, g.stress_mpa));
        let w = fmul(g.duration_h, answer(math, Call::Pow10(fneg(mu))));
        let tau = plan.tau(math, u);
        (
            fadd(d, w),
            fadd(v, fmul(fmul(w, w), fmul(fmul(tau, tau), fsquare(lit(LN_10))))),
        )
    }
}

/// The score of a specimen. Under a constant load the log10 life is normal about its mean;
/// under a variable one the damage is, about 1, with its spread to first order. Of a
/// censored specimen only that it outlived its time counts.
#[verifier::opaque]
pub open spec fn score_of<M: Fn(Call) -> Real>(math: M, plan: Plan, u: Seq<Real>, s: Specimen) -> Score {
    let hi = plan.heat_place(s.heat@);
    let g = s.segments@[0];
    let x = plan.x_of(math, g.stress_mpa);
    let mu = plan.life(math, u, hi, g.temp_kelvin, x);
    let (d, v) = if s.variable {
        damage_of(math, plan, u, hi, s.segments@, s.segments@.len())
    } else {
        (lit(ZERO), lit(ZERO))
    };
    let spread = if s.variable {
        answer(math, Call::Sqrt(fmax(v, lit(TINY))))
    } else {
        plan.tau(math, u)
    };
    let z = if s.variable {
        fdiv(fsub(d, lit(ONE)), spread)
    } else {
        fdiv(fsub(answer(math, Call::Log10(s.time_h)), mu), spread)
    };
    let weight = if is_censored(s) {
        log_phi_cdf_of(math, z)
    } else {
        fsub(log_phi_pdf_of(math, z), answer(math, Call::Ln(spread)))
    };
    Score { damage: d, x, mu, z, weight }
}

/// How a row words what was observed.
pub open spec fn observed_of<S: Fn(Print) -> String>(show: S, s: Specimen, d: Real) -> Seq<char> {
    let t = printed(show, Print::Plain(s.time_h));
    if !s.variable {
        "t="@ + t + "h ("@ + s.outcome@ + ")"@
    } else if is_censored(s) {
        "D="@ + printed(show, Print::Fixed3(d)) + "<1，t="@ + t + "h 后未断（删失）"@
    } else {
        "D=1，t="@ + t + "h 断裂"@
    }
}

fn observed<S: Fn(Print) -> String>(show: &S, s: &Specimen, d: Real) -> (r: String)
    requires
        is_printer(*show),
    ensures
        r@ == observed_of(*show, *s, d),
{
    let t: String = print(show, Print::Plain(s.time_h));
    if !s.variable {
        let head: String = cat(cat("t=", t.as_str()).as_str(), "h (");
        cat(cat(head.as_str(), s.outcome.as_str()).as_str(), ")")
    } else if same(s.outcome.as_str(), "censored") {
        let dd: String = print(show, Print::Fixed3(d));
        let head: String = cat(cat("D=", dd.as_str()).as_str(), "<1，t=");
        cat(cat(head.as_str(), t.as_str()).as_str(), "h 后未断（删失）")
    } else {
        cat(cat("D=1，t=", t.as_str()).as_str(), "h 断裂")
    }
}

/// The row that reports on a specimen. A censored one never has a residual.
pub open spec fn row_is<M: Fn(Call) -> Real, S: Fn(Print) -> String>(
    math: M,
    show: S,
    plan: Plan,
    u: Seq<Real>,
    s: Specimen,
    r: ResidualRow,
) -> bool {
    let c = score_of(math, plan, u, s);
    &&& r.specimen_id@ == s.specimen_id@
    &&& r.heat@ == s.heat@
    &&& r.heat_idx == plan.heat_place(s.heat@)
    &&& r.temp_c == (if s.variable {
        fsub(s.segments@[0].temp_kelvin, lit(ICE_POINT))
    } else {
        s.temp_c
    })
    &&& r.x == c.x
    &&& r.variable == s.variable
    &&& r.censored == is_censored(s)
    &&& r.observed@ == observed_of(show, s, c.damage)
    &&& r.predicted_log10_h == c.mu
    &&& r.residual == (if s.variable || is_censored(s) {
        None
    } else {
        Some(fsub(answer(math, Call::Log10(s.time_h)), c.mu))
    })
    &&& r.std_residual == (if !s.variable && is_censored(s) {
        None
    } else {
        Some(c.z)
    })
    &&& r.contribution == c.weight
    &&& r.censor_tail_probability == (if !is_censored(s) {
        None
    } else if s.variable {
        Some(answer(math, Call::Exp(c.weight)))
    } else {
        Some(fmin(answer(math, Call::Exp(c.weight)), fsub(lit(ONE), lit(TINY))))
    })
    &&& r.cumulative_damage == (if s.variable {
        Some(c.damage)
    } else {
        None
    })
}

/// The negative logarithms of the likelihood of the first `k` specimens.
pub open spec fn sum_of<M: Fn(Call) -> Real>(
    math: M,
    plan: Plan,
    u: Seq<Real>,
    specs: Seq<Specimen>,
    k: nat,
) -> Real
    decreases k,
{
    if k == 0 {
        lit(ZERO)
    } else {
        fadd(
            sum_of(math, plan, u, specs, (k - 1) as nat),
            fneg(score_of(math, plan, u, specs[k - 1]).weight),
        )
    }
}

/// The penalised negative log-likelihood.
pub open spec fn nll_of<M: Fn(Call) -> Real>(
    math: M,
    plan: Plan,
    specs: Seq<Specimen>,
    u: Seq<Real>,
) -> Real {
    fadd(sum_of(math, plan, u, specs, specs.len()), plan.penalty_of(math, u, plan.n_heat()))
}

/// What is found at searched values.
pub struct Eval {
    pub nll: Real,
    pub logl: Real,
    pub rows: Vec<ResidualRow>,
}

fn damage<M: Fn(Call) -> Real>(
    math: &M,
    prob: &Problem,
    master: &Vec<Real>,
    off: Real,
    tau: Real,
    segs: &Vec<Segment>,
    Ghost(u): Ghost<Seq<Real>>,
    Ghost(hi): Ghost<int>,
) -> (r: (Real, Real))
    requires
        is_math(*math),
        master@ == prob.plan().master(*math, u),
        master@.len() == 4,
        off == prob.plan().offset(*math, u, hi),
        tau == prob.plan().tau(*math, u),
    ensures
        r == damage_of(*math, prob.plan(), u, hi, segs@, segs@.len()),
{
    let mut d: Real = lit(ZERO);
    let mut v: Real = lit(ZERO);
    let mut i: usize = 0;
    while i < segs.len()
        invariant
            is_math(*math),
            master@ == prob.plan().master(*math, u),
            master@.len() == 4,
            off == prob.plan().offset(*math, u, hi),
            tau == prob.plan().tau(*math, u),
            i <= segs@.len(),
            (d, v) == damage_of(*math, prob.plan(), u, hi, segs@, i as nat),
        decreases segs@.len() - i,
    {
        let g: Segment = segs[i];
        let x: Real = prob.x_of(math, g.stress_mpa);
        let mu: Real = prob.model.mean(master, g.temp_kelvin, x).plus(off);
        let w: Real = g.duration_h.times(ask(math, Call::Pow10(mu.negated())));
        d = d.plus(w);
        v = v.plus(w.times(w).times(tau.times(tau).times(square_of(lit(LN_10)))));
        i = i + 1;
    }
    (d, v)
}

fn score_row<M: Fn(Call) -> Real, S: Fn(Print) -> String>(
    math: &M,
    show: &S,
    prob: &Problem,
    master: &Vec<Real>,
    offs: &Vec<Real>,
    tau: Real,
    s: &Specimen,
    Ghost(u): Ghost<Seq<Real>>,
) -> (r: ResidualRow)
    requires
        is_math(*math),
        is_printer(*show),
        prob.well_formed(),
        master@ == prob.plan().master(*math, u),
        master@.len() == 4,
        offs@ == prob.plan().offsets(*math, u),
        offs@.len() == prob.heats@.len(),
        tau == prob.plan().tau(*math, u),
        s.segments@.len() > 0,
    ensures
        row_is(*math, *show, prob.plan(), u, *s, r),
{
    let hi: usize = prob.heat_idx(s.heat.as_str());
    let ghost plan = prob.plan();
    proof {
        reveal(score_of);
        assert(offs@[hi as int] == plan.offset(*math, u, hi as int));
    }
    let off: Real = offs[hi];
    let g: Segment = s.segments[0];
    let x: Real = prob.x_of(math, g.stress_mpa);
    let mu: Real = prob.model.mean(master, g.temp_kelvin, x).plus(off);
    let censored: bool = same(s.outcome.as_str(), "censored");
    let (d, v): (Real, Real) = if s.variable {
        damage(math, prob, master, off, tau, &s.segments, Ghost(u), Ghost(hi as int))
    } else {
        (lit(ZERO), lit(ZERO))
    };
    let y: Real = ask(math, Call::Log10(s.time_h));
    let spread: Real = if s.variable { ask(math, Call::Sqrt(v.max(lit(TINY)))) } else { tau };
    let z: Real = if s.variable { d.minus(lit(ONE)).over(spread) } else { y.minus(mu).over(spread) };
    let weight: Real = if censored {
        log_phi_cdf(math, z)
    } else {
        log_phi_pdf(math, z).minus(ask(math, Call::Ln(spread)))
    };
    let tail: Option<Real> = if !censored {
        None
    } else {
        let p: Real = ask(math, Call::Exp(weight));
        if s.variable {
            Some(p)
        } else {
            Some(p.min(lit(ONE).minus(lit(TINY))))
        }
    };
    ResidualRow {
        specimen_id: s.specimen_id.clone(),
        heat: s.heat.clone(),
        heat_idx: hi,
        temp_c: if s.variable { g.temp_kelvin.minus(lit(ICE_POINT)) } else { s.temp_c },
        x,
        variable: s.variable,
        censored,
        observed: observed(show, s, d),
        predicted_log10_h: mu,
        residual: if s.variable || censored { None } else { Some(y.minus(mu)) },
        std_residual: if !s.variable && censored { None } else { Some(z) },
        contribution: weight,
        censor_tail_probability: tail,
        cumulative_damage: if s.variable { Some(d) } else { None },
    }
}

pub fn evaluate<M: Fn(Call) -> Real, S: Fn(Print) -> String>(
    math: &M,
    show: &S,
    prob: &Problem,
    included: &Vec<&Specimen>,
    u: &Vec<Real>,
) -> (r: Eval)
    requires
        is_math(*math),
        is_printer(*show),
        prob.well_formed(),
        u@.len() == prob.plan().dimensions(),
        forall|i: int| 0 <= i < included@.len() ==> (#[trigger] included@[i]).segments@.len() > 0,
    ensures
        evaluated(*math, *show, prob.plan(), referred(included@), u@, r),
{
    let (master, offs, tau) = prob.decode(math, u);
    let mut sum: Real = lit(ZERO);
    let mut rows: Vec<ResidualRow> = Vec::new();
    let mut i: usize = 0;
    while i < included.len()
        invariant
            is_math(*math),
            is_printer(*show),
            prob.well_formed(),
            master@ == prob.plan().master(*math, u@),
            master@.len() == 4,
            offs@ == prob.plan().offsets(*math, u@),
            offs@.len() == prob.heats@.len(),
            tau == prob.plan().tau(*math, u@),
            forall|i: int| 0 <= i < included@.len() ==> (#[trigger] included@[i]).segments@.len() > 0,
            i <= included@.len(),
            sum == sum_of(*math, prob.plan(), u@, referred(included@), i as nat),
            rows@.len() == i,
            forall|k: int|
                0 <= k < i ==> row_is(
                    *math,
                    *show,
                    prob.plan(),
                    u@,
                    *included@[k],
                    #[trigger] rows@[k],
                ),
        decreases included@.len() - i,
    {
        let s: &Specimen = included[i];
        let row: ResidualRow = score_row(math, show, prob, &master, &offs, tau, s, Ghost(u@));
        proof {
            assert(referred(included@)[i as int] == *included@[i as int]);
        }
        sum = sum.plus(row.contribution.negated());
        rows.push(row);
        i = i + 1;
    }
    let pen: Real = prob.penalty(math, u);
    Eval { nll: sum.plus(pen), logl: sum.negated(), rows }
}

/// The offset of a heat always lies between -2 and 2, and that of the base is zero.
pub proof fn law_offsets_within<M: Fn(Call) -> Real>(math: M, plan: Plan, u: Seq<Real>, i: int)
    requires
        is_faithful(math),
        0 <= i,
        i > 0 ==> !u[4 + i - 1].nan(),
    ensures
        fle(lit(OFFSET_LOW), plan.offset(math, u, i)),
        fle(plan.offset(math, u, i), lit(TWO)),
        i == 0 ==> plan.offset(math, u, i) == lit(ZERO),
{
    law_symmetric_range(lit(TWO));
    assert(fneg(lit(TWO)) == lit(OFFSET_LOW));
    if i > 0 {
        law_mapped_within(math, u[4 + i - 1], lit(OFFSET_LOW), lit(TWO));
    }
}

proof fn lemma_tau_positive<M: Fn(Call) -> Real>(math: M, plan: Plan, u: Seq<Real>)
    requires
        is_faithful(math),
        !u[4 + plan.n_heat() as int].nan(),
    ensures
        flt(lit(ZERO), plan.tau(math, u)),
        plan.tau(math, u).finite(),
{
}

/// Of two specimens that were stopped under one constant load, and are alike but for their
/// times, the one that lasted longer is never the likelier, nor is it reported so, but where
/// the roundings set the two apart.
pub proof fn law_censored_weight_falls<M: Fn(Call) -> Real, S: Fn(Print) -> String>(
    math: M,
    show: S,
    plan: Plan,
    u: Seq<Real>,
    s: Specimen,
    t: Specimen,
    a: ResidualRow,
    b: ResidualRow,
)
    requires
        is_faithful(math),
        is_accurate(math),
        row_is(math, show, plan, u, s, a),
        row_is(math, show, plan, u, t, b),
        is_censored(s) && is_censored(t),
        !s.variable && !t.variable,
        s.heat@ == t.heat@,
        s.segments@[0] == t.segments@[0],
        fle(lit(ZERO), s.time_h),
        fle(s.time_h, t.time_h),
        a.predicted_log10_h.finite(),
        !u[4 + plan.n_heat() as int].nan(),
    ensures
        ({
            let x = score_of(math, plan, u, s).z;
            let y = score_of(math, plan, u, t).z;
            &&& fle(x, y)
            &&& !is_rounding_apart(math, x, y) ==> {
                &&& fle(b.contribution, a.contribution)
                &&& a.censor_tail_probability matches Some(p)
                &&& b.censor_tail_probability matches Some(q)
                &&& fle(q, p)
            }
        }),
{
    reveal(score_of);
    lemma_tau_positive(math, plan, u);
    let mu = a.predicted_log10_h;
    let tau = plan.tau(math, u);
    let x = answer(math, Call::Log10(s.time_h));
    let y = answer(math, Call::Log10(t.time_h));
    law_sum_monotone(x, y, fneg(mu));
    law_division_monotone(fsub(x, mu), fsub(y, mu), tau);
    law_weight_falls(math, fdiv(fsub(x, mu), tau), fdiv(fsub(y, mu), tau));
    law_reach(lit(ONE), lit(TINY));
}

/// What is reported of a censored specimen is a probability: of constant load or variable,
/// its weight is not positive, and the probability to survive lies between 0 and 1.
pub proof fn law_reported_survival<M: Fn(Call) -> Real, S: Fn(Print) -> String>(
    math: M,
    show: S,
    plan: Plan,
    u: Seq<Real>,
    s: Specimen,
    r: ResidualRow,
)
    requires
        is_faithful(math),
        row_is(math, show, plan, u, s, r),
        is_censored(s),
        !score_of(math, plan, u, s).z.nan(),
    ensures
        r.contribution == log_phi_cdf_of(math, score_of(math, plan, u, s).z),
        fle(r.contribution, lit(ZERO)),
        r.censor_tail_probability matches Some(p) && fle(lit(ZERO), p) && fle(p, lit(ONE)),
{
    reveal(score_of);
    law_weight_not_positive(math, score_of(math, plan, u, s).z);
    law_reach(lit(ONE), lit(TINY));
    law_difference_antitone(lit(TINY), lit(ONE), lit(ONE));
    assert(fsub(lit(ONE), lit(ONE)) == lit(ZERO));
}

/// Whether two rows say the same.
pub open spec fn same_row(a: ResidualRow, b: ResidualRow) -> bool {
    &&& a.specimen_id@ == b.specimen_id@
    &&& a.heat@ == b.heat@
    &&& a.heat_idx == b.heat_idx
    &&& a.temp_c == b.temp_c
    &&& a.x == b.x
    &&& a.variable == b.variable
    &&& a.censored == b.censored
    &&& a.observed@ == b.observed@
    &&& a.predicted_log10_h == b.predicted_log10_h
    &&& a.residual == b.residual
    &&& a.std_residual == b.std_residual
    &&& a.contribution == b.contribution
    &&& a.censor_tail_probability == b.censor_tail_probability
    &&& a.cumulative_damage == b.cumulative_damage
}

/// What is found of the specimens at searched values.
pub open spec fn evaluated<M: Fn(Call) -> Real, S: Fn(Print) -> String>(
    math: M,
    show: S,
    plan: Plan,
    specs: Seq<Specimen>,
    u: Seq<Real>,
    e: Eval,
) -> bool {
    &&& e.nll == nll_of(math, plan, specs, u)
    &&& e.logl == fneg(sum_of(math, plan, u, specs, specs.len()))
    &&& e.rows@.len() == specs.len()
    &&& forall|i: int|
        0 <= i < specs.len() ==> row_is(math, show, plan, u, specs[i], #[trigger] e.rows@[i])
}

/// The negative contributions of the first `k` rows, added to `from`.
pub open spec fn total_from(from: Real, rows: Seq<ResidualRow>, k: nat) -> Real
    decreases k,
{
    if k == 0 {
        from
    } else {
        fadd(total_from(from, rows, (k - 1) as nat), fneg(rows[k - 1].contribution))
    }
}

proof fn lemma_total<M: Fn(Call) -> Real, S: Fn(Print) -> String>(
    math: M,
    show: S,
    plan: Plan,
    specs: Seq<Specimen>,
    u: Seq<Real>,
    e: Eval,
    k: nat,
)
    requires
        evaluated(math, show, plan, specs, u, e),
        k <= specs.len(),
    ensures
        sum_of(math, plan, u, specs, k) == total_from(lit(ZERO), e.rows@, k),
    decreases k,
{
    if k > 0 {
        lemma_total(math, show, plan, specs, u, e, (k - 1) as nat);
        assert(row_is(math, show, plan, u, specs[k - 1], e.rows@[k - 1]));
    }
}

proof fn lemma_joined_total(a: Seq<ResidualRow>, b: Seq<ResidualRow>, ab: Seq<ResidualRow>, k: nat)
    requires
        ab.len() == a.len() + b.len(),
        k <= b.len(),
        forall|i: int|
            0 <= i < a.len() ==> (#[trigger] ab[i]).contribution == a[i].contribution,
        forall|i: int|
            0 <= i < b.len() ==> ab[a.len() + i].contribution == (#[trigger] b[i]).contribution,
    ensures
        total_from(lit(ZERO), ab, a.len() + k) == total_from(
            total_from(lit(ZERO), a, a.len()),
            b,
            k,
        ),
    decreases k,
{
    if k > 0 {
        lemma_joined_total(a, b, ab, (k - 1) as nat);
        assert(ab[a.len() + (k - 1)].contribution == b[k - 1].contribution);
    } else {
        lemma_same_total(a, ab, a.len());
    }
}

proof fn lemma_same_total(a: Seq<ResidualRow>, ab: Seq<ResidualRow>, k: nat)
    requires
        k <= a.len() <= ab.len(),
        forall|i: int|
            0 <= i < a.len() ==> (#[trigger] ab[i]).contribution == a[i].contribution,
    ensures
        total_from(lit(ZERO), ab, k) == total_from(lit(ZERO), a, k),
    decreases k,
{
    if k > 0 {
        lemma_same_total(a, ab, (k - 1) as nat);
        assert(ab[k - 1].contribution == a[k - 1].contribution);
    }
}

/// The log-likelihood is the contributions of the rows, one for each specimen, and the
/// penalty counts once however many there are.
pub proof fn law_likelihood_of_rows<M: Fn(Call) -> Real, S: Fn(Print) -> String>(
    math: M,
    show: S,
    plan: Plan,
    specs: Seq<Specimen>,
    u: Seq<Real>,
    e: Eval,
)
    requires
        evaluated(math, show, plan, specs, u, e),
    ensures
        e.rows@.len() == specs.len(),
        e.logl == fneg(total_from(lit(ZERO), e.rows@, specs.len())),
        e.nll == fadd(fneg(e.logl), plan.penalty_of(math, u, plan.n_heat())),
{
    lemma_total(math, show, plan, specs, u, e, specs.len());
    law_negation(sum_of(math, plan, u, specs, specs.len()), lit(ZERO));
}

/// The rows of two lists of specimens put one after the other are the rows of the first and
/// then those of the second; the sum goes on where that of the first has ended, and the
/// penalty is counted once.
pub proof fn law_evaluation_joins<M: Fn(Call) -> Real, S: Fn(Print) -> String>(
    math: M,
    show: S,
    plan: Plan,
    a: Seq<Specimen>,
    b: Seq<Specimen>,
    u: Seq<Real>,
    ea: Eval,
    eb: Eval,
    eab: Eval,
)
    requires
        evaluated(math, show, plan, a, u, ea),
        evaluated(math, show, plan, b, u, eb),
        evaluated(math, show, plan, a + b, u, eab),
    ensures
        eab.rows@.len() == ea.rows@.len() + eb.rows@.len(),
        forall|i: int| 0 <= i < a.len() ==> same_row(#[trigger] eab.rows@[i], ea.rows@[i]),
        forall|i: int|
            0 <= i < b.len() ==> same_row(eab.rows@[a.len() + i], #[trigger] eb.rows@[i]),
        eab.logl == fneg(total_from(fneg(ea.logl), eb.rows@, b.len())),
        eab.nll == fadd(fneg(eab.logl), plan.penalty_of(math, u, plan.n_heat())),
{
    assert forall|i: int| 0 <= i < a.len() implies same_row(
        #[trigger] eab.rows@[i],
        ea.rows@[i],
    ) by {
        assert((a + b)[i] == a[i]);
        assert(row_is(math, show, plan, u, a[i], ea.rows@[i]));
    }
    assert forall|i: int| 0 <= i < b.len() implies same_row(
        eab.rows@[a.len() + i],
        #[trigger] eb.rows@[i],
    ) by {
        assert((a + b)[a.len() + i] == b[i]);
        assert(row_is(math, show, plan, u, b[i], eab.rows@[a.len() + i]));
    }
    law_likelihood_of_rows(math, show, plan, a, u, ea);
    law_likelihood_of_rows(math, show, plan, a + b, u, eab);
    lemma_joined_total(ea.rows@, eb.rows@, eab.rows@, b.len());
    law_negation(total_from(lit(ZERO), ea.rows@, a.len()), lit(ZERO));
}

/// What is reported of a censored specimen of constant load, short of 6, is its probability
/// to survive, but for what the exponential of its logarithm is off, and for the cap.
pub proof fn law_reported_is_survival<M: Fn(Call) -> Real, S: Fn(Print) -> String>(
    math: M,
    show: S,
    plan: Plan,
    u: Seq<Real>,
    s: Specimen,
    r: ResidualRow,
    slack: int,
)
    requires
        is_faithful(math),
        row_is(math, show, plan, u, s, r),
        is_censored(s) && !s.variable,
        fle(score_of(math, plan, u, s).z, lit(SIX)) && !fle(
            lit(SIX),
            score_of(math, plan, u, s).z,
        ),
        size_of(
            answer(math, Call::Exp(r.contribution)).value() - survival_of(
                math,
                score_of(math, plan, u, s).z,
            ).value(),
        ) <= slack,
    ensures
        r.censor_tail_probability matches Some(p) && size_of(
            p.value() - survival_of(math, score_of(math, plan, u, s).z).value(),
        ) <= slack + (lit(ONE).value() - fsub(lit(ONE), lit(TINY)).value()),
{
    reveal(score_of);
    let z = score_of(math, plan, u, s).z;
    law_survival_is_probability(math, z);
    law_reported_survival(math, show, plan, u, s, r);
    let v = survival_of(math, z);
    let e = answer(math, Call::Exp(r.contribution));
    let cap = fsub(lit(ONE), lit(TINY));
    law_reach(lit(ONE), lit(TINY));
    law_difference_antitone(lit(TINY), lit(ONE), lit(ONE));
    assert(fsub(lit(ONE), lit(ONE)) == lit(ZERO));
    lemma_ranks_values(v, lit(ONE));
    lemma_ranks_values(cap, lit(ONE));
    if fle(e, lit(ONE)) {
        if flt(cap, e) {
            lemma_ranks_values(cap, e);
        }
    }
}

} // verus!
