//! What a specimen weighs in the likelihood: one that ruptured by how far it lies from its
//! mean, one that was stopped by what it outlived; and what the offsets of the heats cost.
use vstd::prelude::*;
use crate::fit::{FitRequest, FitResult, ResidualRow};
use crate::fit::damage::{blur_of, is_blurred, lemma_blur};
use crate::fit::problem::{damage_of, is_censored, row_is, score_of, sum_of, total_from, Plan, TINY};
use crate::fit::report::{rounded_at, MILLION};
use crate::fit::run::{found, plan_of, result_is};
use crate::fit::select::chosen;
use crate::host::{answer, is_faithful, of_ordinary_size, takes_roots, Call, Print};
use crate::normal::{far_survival, law_survival_is_probability, law_weight_not_positive,
    lemma_far_falls, ln_2pi, log_phi_cdf_of, log_phi_pdf_of, survival_of, PI, SIX};
use crate::normal::rise::{grain, law_survival_sides, lemma_grain};
use crate::number::{fabs, fle, flt, fmax, fneg, lit, mag, Real, BINADE, INF};
use crate::number::arith::{fadd, fdiv, fmul, fsub, ONE_EXPONENT};
use crate::number::consts::{HALF, MINUS_HALF, ONE, TWO, ZERO};
use crate::number::convert::one_quanta;
use crate::number::order::{law_commutes, law_difference_shrinks, law_negation, law_product_exact,
    law_product_monotone, law_products_ordered, law_reach, law_reciprocal, law_signs,
    law_sum_exact, law_sum_grows, law_sum_monotone, law_sums_ordered, law_unit_factors,
    law_zero_added, lemma_double, lemma_one, lemma_ranks_values, lemma_zero_rounds};
use crate::number::rounding::lemma_mag_monotone;
use crate::number::shape::{law_squares_ordered, lemma_square_of_size};
use crate::specimen::Specimen;
use vstd::arithmetic::power2::{lemma_pow2_pos, pow2};

verus! {

/// How many spreads the log10 life of a specimen of constant load lies above its mean.
pub open spec fn spreads_above<M: Fn(Call) -> Real>(
    math: M,
    plan: Plan,
    u: Seq<Real>,
    s: Specimen,
    r: ResidualRow,
) -> Real {
    fdiv(fsub(answer(math, Call::Log10(s.time_h)), r.predicted_log10_h), plan.tau(math, u))
}

/// The logarithm of the density, and how it stands to the square.
pub proof fn lemma_density<M: Fn(Call) -> Real>(math: M, y: Real, z: Real)
    requires
        is_faithful(math),
        ln_2pi(math).finite(),
        fle(fabs(y), fabs(z)),
    ensures
        fle(log_phi_pdf_of(math, z), log_phi_pdf_of(math, y)),
        fle(log_phi_pdf_of(math, z), fneg(fmul(lit(HALF), fmul(z, z)))),
        fabs(y) == fabs(z) ==> log_phi_pdf_of(math, z) == log_phi_pdf_of(math, y),
{
    let c = ln_2pi(math);
    let h = lit(HALF);
    law_squares_ordered(y, z);
    lemma_square_of_size(y);
    lemma_square_of_size(z);
    let (v, w) = (fmul(y, y), fmul(z, z));
    law_sum_monotone(v, w, c);
    law_products_ordered(lit(TWO), lit(TWO), lit(ONE), lit(PI));
    law_unit_factors(lit(TWO));
    assert(fle(lit(ZERO), c));
    law_sums_ordered(v, v, c, c);
    law_sums_ordered(w, w, c, c);
    law_sum_grows(w, c);
    let (a, b) = (fadd(v, c), fadd(w, c));
    law_product_monotone(a, b, h);
    law_product_monotone(w, b, h);
    law_commutes(a, h);
    law_commutes(b, h);
    law_commutes(w, h);
    assert(fneg(h) == lit(MINUS_HALF));
    law_signs(h, a);
    law_signs(h, b);
    law_negation(fmul(h, a), fmul(h, b));
    law_negation(fmul(h, w), fmul(h, b));
}

/// Of two specimens that ruptured under constant loads, the one further from its mean, on
/// whichever side, never weighs more, and two as far off weigh the same; what each weighs is
/// at most minus half the square of its distance in spreads, less the logarithm of the
/// spread.
pub proof fn law_ruptured_weighs_by_distance<M: Fn(Call) -> Real, S: Fn(Print) -> String>(
    math: M,
    show: S,
    plan: Plan,
    u: Seq<Real>,
    s: Specimen,
    t: Specimen,
    a: ResidualRow,
    b: ResidualRow,
)
    requires
        is_faithful(math),
        ln_2pi(math).finite(),
        row_is(math, show, plan, u, s, a),
        row_is(math, show, plan, u, t, b),
        !is_censored(s) && !is_censored(t),
        !s.variable && !t.variable,
        answer(math, Call::Ln(plan.tau(math, u))).finite(),
        fle(
            fabs(spreads_above(math, plan, u, s, a)),
            fabs(spreads_above(math, plan, u, t, b)),
        ),
    ensures
        fle(b.contribution, a.contribution),
        fabs(spreads_above(math, plan, u, s, a)) == fabs(spreads_above(math, plan, u, t, b))
            ==> a.contribution == b.contribution,
        ({
            let z = spreads_above(math, plan, u, t, b);
            fle(
                b.contribution,
                fsub(
                    fneg(fmul(lit(HALF), fmul(z, z))),
                    answer(math, Call::Ln(plan.tau(math, u))),
                ),
            )
        }),
{
    reveal(score_of);
    let y = spreads_above(math, plan, u, s, a);
    let z = spreads_above(math, plan, u, t, b);
    let l = answer(math, Call::Ln(plan.tau(math, u)));
    lemma_density(math, y, z);
    law_sum_monotone(log_phi_pdf_of(math, z), log_phi_pdf_of(math, y), fneg(l));
    law_sum_monotone(
        log_phi_pdf_of(math, z),
        fneg(fmul(lit(HALF), fmul(z, z))),
        fneg(l),
    );
}

/// A specimen that was stopped under a constant load weighs minus what it outlived: never
/// above 0; stopped below its mean, no less than the logarithm of any probability under 1/2;
/// stopped above it, up to 6 spreads, no more than that of any over 1/2; from 6 spreads on at
/// most minus half their square.
pub proof fn law_stopped_weighs_by_survival<M: Fn(Call) -> Real, S: Fn(Print) -> String>(
    math: M,
    show: S,
    plan: Plan,
    u: Seq<Real>,
    s: Specimen,
    r: ResidualRow,
    p: Real,
)
    requires
        is_faithful(math),
        row_is(math, show, plan, u, s, r),
        is_censored(s),
        !s.variable,
        !spreads_above(math, plan, u, s, r).nan(),
        fle(lit(ZERO), p),
        fle(p, lit(ONE)),
    ensures
        ({
            let z = spreads_above(math, plan, u, s, r);
            let w = r.contribution;
            &&& fle(w, lit(ZERO))
            &&& flt(z, lit(ZERO)) && z.size() > 1 && 2 * p.value() <= one_quanta() - 14 * grain()
                ==> fle(answer(math, Call::Ln(p)), w)
            &&& fle(lit(ZERO), z) && flt(z, lit(SIX)) && one_quanta() + 14 * grain() <= 2
                * p.value() ==> fle(w, answer(math, Call::Ln(p)))
            &&& fle(lit(SIX), z) && z.finite() && fmul(lit(HALF), fmul(z, z)).finite() ==> fle(
                w,
                fneg(fmul(lit(HALF), fmul(z, z))),
            )
        }),
{
    reveal(score_of);
    let z = spreads_above(math, plan, u, s, r);
    assert(r.contribution == log_phi_cdf_of(math, z));
    law_weight_not_positive(math, z);
    if fle(lit(SIX), z) {
        if z.finite() && fmul(lit(HALF), fmul(z, z)).finite() {
            lemma_far_weight(math, z);
        }
    } else {
        law_survival_sides(math, z);
        law_survival_is_probability(math, z);
        let q = survival_of(math, z);
        lemma_grain();
        lemma_one();
        assert(mag(0) == 0);
        if flt(q, p) {
            lemma_ranks_values(q, p);
            lemma_mag_monotone(q.size(), p.size());
        }
        if flt(p, q) {
            lemma_ranks_values(p, q);
            lemma_mag_monotone(p.size(), q.size());
        }
    }
}

/// A specimen that was stopped under a variable load weighs by its standing in the same way.
pub proof fn law_stopped_load_weighs_by_survival<M: Fn(Call) -> Real, S: Fn(Print) -> String>(
    math: M,
    show: S,
    plan: Plan,
    u: Seq<Real>,
    s: Specimen,
    r: ResidualRow,
    p: Real,
)
    requires
        is_faithful(math),
        row_is(math, show, plan, u, s, r),
        is_censored(s),
        s.variable,
        r.std_residual matches Some(z) && !z.nan(),
        fle(lit(ZERO), p),
        fle(p, lit(ONE)),
    ensures
        ({
            let z = r.std_residual->0;
            let w = r.contribution;
            &&& fle(w, lit(ZERO))
            &&& flt(z, lit(ZERO)) && z.size() > 1 && 2 * p.value() <= one_quanta() - 14 * grain()
                ==> fle(answer(math, Call::Ln(p)), w)
            &&& fle(lit(ZERO), z) && flt(z, lit(SIX)) && one_quanta() + 14 * grain() <= 2
                * p.value() ==> fle(w, answer(math, Call::Ln(p)))
        }),
{
    reveal(score_of);
    let z = r.std_residual->0;
    assert(r.contribution == log_phi_cdf_of(math, z));
    law_weight_not_positive(math, z);
    if !fle(lit(SIX), z) {
        law_survival_sides(math, z);
        law_survival_is_probability(math, z);
        let q = survival_of(math, z);
        lemma_grain();
        lemma_one();
        assert(mag(0) == 0);
        if flt(q, p) {
            lemma_ranks_values(q, p);
            lemma_mag_monotone(q.size(), p.size());
        }
        if flt(p, q) {
            lemma_ranks_values(p, q);
            lemma_mag_monotone(p.size(), q.size());
        }
    }
}

/// A specimen that ruptured under a variable load weighs at most minus half the square of its
/// standing, less the logarithm of any number whose square a segment blurs its damage by.
pub proof fn law_ruptured_load_weighs_by_distance<M: Fn(Call) -> Real, S: Fn(Print) -> String>(
    math: M,
    show: S,
    plan: Plan,
    u: Seq<Real>,
    s: Specimen,
    r: ResidualRow,
    i: int,
    x: Real,
)
    requires
        is_faithful(math),
        takes_roots(math),
        ln_2pi(math).finite(),
        row_is(math, show, plan, u, s, r),
        !is_censored(s),
        s.variable,
        is_blurred(math, plan, u, s),
        0 <= i < s.segments@.len(),
        of_ordinary_size(x),
        fle(fmul(x, x), blur_of(math, plan, u, s.heat@, s.segments@[i])),
        answer(math, Call::Ln(x)).finite(),
        r.std_residual matches Some(z) && z.finite() && fmul(
            lit(HALF),
            fmul(z, z),
        ).finite(),
    ensures
        ({
            let z = r.std_residual->0;
            fle(
                r.contribution,
                fsub(fneg(fmul(lit(HALF), fmul(z, z))), answer(math, Call::Ln(x))),
            )
        }),
{
    reveal(score_of);
    let hi = plan.heat_place(s.heat@);
    let n = s.segments@.len();
    let (d, v) = damage_of(math, plan, u, hi, s.segments@, n);
    lemma_blur(math, plan, u, s, n, i);
    let held = fmax(v, lit(TINY));
    let spread = answer(math, Call::Sqrt(held));
    lemma_square_of_size(x);
    assert(answer(math, Call::Sqrt(fmul(x, x))) == x);
    assert(fle(x, spread));
    let z = r.std_residual->0;
    lemma_density(math, z, z);
    let (k, l) = (answer(math, Call::Ln(x)), answer(math, Call::Ln(spread)));
    assert(fle(k, l));
    law_negation(k, l);
    let (a, b) = (log_phi_pdf_of(math, z), fneg(fmul(lit(HALF), fmul(z, z))));
    law_sum_monotone(a, b, fneg(k));
    if a.finite() {
        law_sum_monotone(fneg(l), fneg(k), a);
        law_commutes(fneg(l), a);
        law_commutes(fneg(k), a);
    } else {
        assert(a.inf() && a.neg());
    }
}

/// The far form of a weight is at most minus half the square.
proof fn lemma_far_weight<M: Fn(Call) -> Real>(math: M, z: Real)
    requires
        is_faithful(math),
        fle(lit(SIX), z),
        z.finite(),
        fmul(lit(HALF), fmul(z, z)).finite(),
    ensures
        fle(far_survival(math, z), fneg(fmul(lit(HALF), fmul(z, z)))),
{
    let w = fmul(z, z);
    let h = fmul(lit(HALF), w);
    law_products_ordered(z, z, lit(ONE), z);
    law_unit_factors(z);
    assert(fle(lit(ONE), w));
    law_reciprocal(w);
    let i = fdiv(lit(ONE), w);
    law_reach(h, i);
    let a = fadd(h, i);
    law_negation(h, a);
    lemma_far_falls(math, z, z);
    let l = answer(math, Call::Ln(z));
    let k = fmul(lit(HALF), ln_2pi(math));
    law_products_ordered(lit(TWO), lit(TWO), lit(ONE), lit(PI));
    law_unit_factors(lit(TWO));
    law_product_monotone(ln_2pi(math), ln_2pi(math), lit(HALF));
    law_commutes(ln_2pi(math), lit(HALF));
    let b = fsub(fneg(a), l);
    let c = fsub(b, k);
    assert(c == far_survival(math, z));
    assert(!c.nan());
    assert(!b.nan());
    law_difference_shrinks(fneg(a), l);
    law_difference_shrinks(b, k);
}

/// The penalty of the offsets is never negative, is nothing where they are all 0 or there is
/// but one heat, and does not fall as the shrinkage or an offset grows in size.
pub proof fn law_offsets_cost<M: Fn(Call) -> Real>(
    math: M,
    plan: Plan,
    u: Seq<Real>,
    other: Plan,
    v: Seq<Real>,
    k: nat,
)
    requires
        fle(lit(ZERO), plan.shrink),
        fle(plan.shrink, other.shrink),
        other.shrink.finite(),
        forall|i: int|
            1 <= i <= k ==> fle(
                fabs(#[trigger] plan.offset(math, u, i)),
                fabs(other.offset(math, v, i)),
            ) && other.offset(math, v, i).finite() && fmul(
                other.shrink,
                fabs(other.offset(math, v, i)),
            ).finite(),
    ensures
        fle(lit(ZERO), plan.penalty_of(math, u, k)),
        fle(plan.penalty_of(math, u, k), other.penalty_of(math, v, k)),
        k == 0 ==> plan.penalty_of(math, u, k).zero(),
        (forall|i: int| 1 <= i <= k ==> (#[trigger] plan.offset(math, u, i)).zero())
            ==> plan.penalty_of(math, u, k).zero(),
    decreases k,
{
    if k > 0 {
        law_offsets_cost(math, plan, u, other, v, (k - 1) as nat);
        let b = plan.offset(math, u, k as int);
        let c = other.offset(math, v, k as int);
        let (s, t) = (plan.shrink, other.shrink);
        assert(fle(fabs(b), fabs(c)));
        lemma_cost(s, b);
        lemma_cost(t, c);
        law_products_ordered(s, t, fabs(b), fabs(c));
        law_products_ordered(fmul(s, fabs(b)), fmul(t, fabs(c)), fabs(b), fabs(c));
        law_sums_ordered(
            plan.penalty_of(math, u, (k - 1) as nat),
            other.penalty_of(math, v, (k - 1) as nat),
            fmul(fmul(s, b), b),
            fmul(fmul(t, c), c),
        );
        if b.zero() {
            assert(mag(0) == 0);
        }
    }
}

/// The cost of an offset is that of its size.
proof fn lemma_cost(s: Real, b: Real)
    requires
        fle(lit(ZERO), s),
        s.finite(),
        b.finite(),
    ensures
        fmul(fmul(s, b), b) == fmul(fmul(s, fabs(b)), fabs(b)),
        b.zero() ==> fmul(fmul(s, b), b).zero(),
{
    let a = fabs(b);
    let p = fmul(s, a);
    law_products_ordered(s, s, a, a);
    if b.neg() {
        assert(b == fneg(a));
        law_commutes(s, b);
        law_commutes(s, a);
        law_signs(a, s);
        assert(fmul(s, b) == fneg(p));
        law_commutes(fneg(p), b);
        law_signs(a, fneg(p));
        law_commutes(a, fneg(p));
        law_signs(p, a);
        law_negation(fmul(p, a), lit(ZERO));
        if a.zero() {
            lemma_times_zero(s, a);
            lemma_times_zero(p, a);
        }
    } else {
        assert(b == a);
        if a.zero() {
            lemma_times_zero(s, a);
            lemma_times_zero(p, a);
        }
    }
}

proof fn lemma_times_zero(s: Real, a: Real)
    requires
        s.finite(),
        a.zero(),
    ensures
        fmul(s, a).zero(),
{
    let m = mag(s.size());
    assert(mag(0) == 0);
    assert(m * 0 == 0);
    lemma_pow2_pos(ONE_EXPONENT as nat);
    lemma_zero_rounds(pow2(ONE_EXPONENT as nat) as int);
}

/// The log-likelihood of a report is the sum of what its rows contribute, to six decimals.
pub proof fn law_report_adds_rows<M: Fn(Call) -> Real, S: Fn(Print) -> String>(
    math: M,
    show: S,
    all: Seq<Specimen>,
    req: FitRequest,
    r: FitResult,
)
    requires
        result_is(math, show, all, req, r),
    ensures
        r.log_likelihood == rounded_at(
            fneg(total_from(lit(ZERO), r.residuals@, r.residuals@.len())),
            lit(MILLION),
        ),
        r.residuals@.len() == r.n_included,
{
    let specs = chosen(all, req.criterion@, req.damage_model, all.len());
    let plan = plan_of(req, specs);
    let u = found(math, plan, specs).0;
    lemma_rows_total(math, show, plan, specs, u, r.residuals@, specs.len());
}

proof fn lemma_rows_total<M: Fn(Call) -> Real, S: Fn(Print) -> String>(
    math: M,
    show: S,
    plan: Plan,
    specs: Seq<Specimen>,
    u: Seq<Real>,
    rows: Seq<ResidualRow>,
    k: nat,
)
    requires
        rows.len() == specs.len(),
        forall|i: int|
            0 <= i < specs.len() ==> row_is(math, show, plan, u, specs[i], #[trigger] rows[i]),
        k <= specs.len(),
    ensures
        sum_of(math, plan, u, specs, k) == total_from(lit(ZERO), rows, k),
    decreases k,
{
    if k > 0 {
        lemma_rows_total(math, show, plan, specs, u, rows, (k - 1) as nat);
        assert(row_is(math, show, plan, u, specs[k - 1], rows[k - 1]));
    }
}

proof fn lemma_cost_of_one(s: Real, b: Real)
    requires
        flt(lit(ZERO), s),
        BINADE <= s.size() < INF - 2 * BINADE,
        fabs(b) == lit(ONE) || fabs(b) == lit(TWO),
    ensures
        fabs(b) == lit(ONE) ==> fmul(fmul(s, b), b) == s,
        fabs(b) == lit(TWO) ==> fmul(fmul(s, b), b).bits == s.bits + 2 * BINADE,
{
    let q = pow2(ONE_EXPONENT as nat) as int;
    lemma_cost(s, b);
    law_unit_factors(s);
    lemma_one();
    lemma_double(ONE as int);
    lemma_double(s.size());
    lemma_double(s.size() + BINADE);
    let m = mag(s.size());
    assert(m * (2 * q) == (2 * m) * q && (2 * m) * (2 * q) == (4 * m) * q) by (nonlinear_arith);
    let t = Real { bits: (s.bits + BINADE) as u64 };
    law_product_exact(s, lit(TWO), t);
    law_product_exact(t, lit(TWO), Real { bits: (s.bits + 2 * BINADE) as u64 });
}

/// Where one offset alone is not 0, the penalty is the shrinkage where the offset is 1 in size,
/// and four times as much where it is 2.
pub proof fn law_cost_of_one_offset<M: Fn(Call) -> Real>(
    math: M,
    plan: Plan,
    u: Seq<Real>,
    k: nat,
    m: int,
)
    requires
        flt(lit(ZERO), plan.shrink),
        BINADE <= plan.shrink.size() < INF - 2 * BINADE,
        1 <= m <= k,
        forall|i: int| 1 <= i <= k && i != m ==> (#[trigger] plan.offset(math, u, i)).zero(),
    ensures
        fabs(plan.offset(math, u, m)) == lit(ONE) ==> plan.penalty_of(math, u, k) == plan.shrink,
        fabs(plan.offset(math, u, m)) == lit(TWO) ==> plan.penalty_of(math, u, k).finite()
            && plan.penalty_of(math, u, k).value() == 4 * plan.shrink.value(),
    decreases k,
{
    let s = plan.shrink;
    let b = plan.offset(math, u, m);
    let f = Real { bits: (s.bits + 2 * BINADE) as u64 };
    lemma_double(s.size());
    lemma_double(s.size() + BINADE);
    assert(mag(0) == 0);
    lemma_mag_monotone(0, s.size());
    if fabs(b) == lit(ONE) || fabs(b) == lit(TWO) {
        lemma_cost_of_one(s, b);
        if k == m {
            lemma_no_cost(math, plan, u, (m - 1) as nat);
            law_zero_added(s);
            law_zero_added(f);
        } else {
            law_cost_of_one_offset(math, plan, u, (k - 1) as nat, m);
            let z = plan.offset(math, u, k as int);
            lemma_cost(s, z);
            let c = fmul(fmul(s, z), z);
            law_sum_exact(s, c, s);
            law_sum_exact(f, c, f);
            let before = plan.penalty_of(math, u, (k - 1) as nat);
            if fabs(b) == lit(TWO) {
                law_sum_exact(before, c, before);
            }
        }
    }
}

proof fn lemma_no_cost<M: Fn(Call) -> Real>(math: M, plan: Plan, u: Seq<Real>, k: nat)
    requires
        flt(lit(ZERO), plan.shrink),
        plan.shrink.finite(),
        forall|i: int| 1 <= i <= k ==> (#[trigger] plan.offset(math, u, i)).zero(),
    ensures
        plan.penalty_of(math, u, k) == lit(ZERO),
    decreases k,
{
    assert(mag(0) == 0);
    if k > 0 {
        lemma_no_cost(math, plan, u, (k - 1) as nat);
        lemma_cost(plan.shrink, plan.offset(math, u, k as int));
    }
}

} // verus!
