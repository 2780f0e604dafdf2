//! How a report judges a target that lies outside the points of the specimens.
use vstd::prelude::*;
use crate::fit::{FitRequest, FitResult, Prediction, TargetIn};
use crate::fit::covariance::leverage_of;
use crate::fit::decimals::{law_reports_keep_order, lemma_integer_sign};
use crate::fit::forecast::{ground_of, kelvin_of, lemma_prediction};
use crate::fit::report::{rounded_at, HUNDRED, TEN_THOUSAND, THOUSAND};
use crate::fit::run::{gap_of, notes_bound, prediction_is, result_is, risk_of, span_of, Ground};
use crate::host::{answer, is_faithful, of_ordinary_size, takes_roots, Call, Print};
use crate::ingest::ICE_POINT;
use crate::number::{fle, flt, fmax, fneg, lit, mag, Real};
use crate::number::arith::{fadd, fdiv, fmul, fsub, ONE_EXPONENT};
use crate::number::consts::{ONE, ZERO};
use crate::number::convert::finteger;
use crate::number::order::{law_commutes, law_difference_antitone, law_quotient_monotone,
    law_sum_grows, law_sum_monotone, law_sums_ordered, law_zero_added, lemma_zero_rounds};
use crate::number::shape::{law_difference_is_felt, law_difference_not_negative,
    law_squares_ordered, lemma_size_of_share, lemma_square_of_size};
use crate::specimen::Specimen;
use crate::text::contains;
use vstd::arithmetic::power2::{lemma_pow2_pos, pow2};

verus! {

/// 0.25
pub const QUARTER: u64 = 0x3fd0_0000_0000_0000;

/// Whether a range can be measured.
pub open spec fn is_span(low: Real, high: Real) -> bool {
    &&& low.finite() && high.finite()
    &&& fle(low, high)
    &&& fsub(high, low).finite()
}

/// The temperature of the `i`-th target in degrees Celsius.
pub open spec fn celsius_of(req: FitRequest, i: int) -> Real {
    fsub(kelvin_of(req, i), lit(ICE_POINT))
}

/// Whether the envelope of a report can be measured, and the `i`-th target too.
pub open spec fn is_measured(req: FitRequest, r: FitResult, i: int) -> bool {
    &&& is_span(r.envelope.min_temp_c, r.envelope.max_temp_c)
    &&& is_span(r.envelope.min_stress_mpa, r.envelope.max_stress_mpa)
    &&& celsius_of(req, i).finite()
    &&& req.targets@[i].stress_mpa.finite()
}

/// How far `x` lies above the end of a range, in lengths of the range, or in units where the
/// range is shorter.
pub open spec fn over_by(x: Real, low: Real, high: Real) -> Real {
    fdiv(fsub(x, high), fmax(fsub(high, low), lit(ONE)))
}

/// How far `x` lies below the start of a range, likewise.
pub open spec fn under_by(x: Real, low: Real, high: Real) -> Real {
    fdiv(fsub(low, x), fmax(fsub(high, low), lit(ONE)))
}

/// The share of a range by which `x` lies outside.
proof fn lemma_share_outside(x: Real, low: Real, high: Real)
    requires
        is_span(low, high),
        x.finite(),
    ensures
        ({
            let g = gap_of(x, low, high);
            let a = fdiv(g, span_of(low, high));
            &&& fle(lit(ZERO), g)
            &&& fle(lit(ZERO), a)
            &&& flt(lit(ZERO), span_of(low, high)) && span_of(low, high).finite()
            &&& flt(high, x) ==> a == over_by(x, low, high) && flt(lit(ZERO), g)
            &&& flt(x, low) ==> a == under_by(x, low, high) && flt(lit(ZERO), g)
            &&& fle(low, x) && fle(x, high) ==> g == lit(ZERO) && a.zero()
        }),
{
    law_difference_not_negative(low, high);
    if flt(high, x) {
        law_difference_is_felt(high, x);
    }
    if flt(x, low) {
        law_difference_is_felt(x, low);
    }
    let g = gap_of(x, low, high);
    law_quotient_monotone(g, g, span_of(low, high));
    if g.zero() {
        lemma_size_of_share(g, span_of(low, high));
    }
}

/// The distance that two shares make together.
pub open spec fn apart<M: Fn(Call) -> Real>(math: M, a: Real, b: Real) -> Real {
    answer(math, Call::Sqrt(fadd(fmul(a, a), fmul(b, b))))
}

/// The distance grows with either share, is no less than either, and is one where the other
/// is nothing.
proof fn lemma_apart<M: Fn(Call) -> Real>(math: M, a: Real, b: Real, c: Real, d: Real)
    requires
        is_faithful(math),
        takes_roots(math),
        fle(lit(ZERO), a),
        fle(a, c),
        fle(lit(ZERO), b),
        fle(b, d),
    ensures
        fle(lit(ZERO), apart(math, a, b)),
        fle(apart(math, a, b), apart(math, c, d)),
        of_ordinary_size(a) ==> fle(a, apart(math, a, b)),
        of_ordinary_size(b) ==> fle(b, apart(math, a, b)),
        of_ordinary_size(a) && b.zero() ==> apart(math, a, b) == a,
        of_ordinary_size(b) && a.zero() ==> apart(math, a, b) == b,
        a.zero() && b.zero() ==> apart(math, a, b).zero(),
{
    law_squares_ordered(a, c);
    law_squares_ordered(b, d);
    lemma_square_of_size(a);
    lemma_square_of_size(b);
    let (x, y) = (fmul(a, a), fmul(b, b));
    law_sums_ordered(x, fmul(c, c), y, fmul(d, d));
    law_sum_grows(x, y);
    law_commutes(x, y);
    law_sum_grows(y, x);
    if of_ordinary_size(a) {
        assert(answer(math, Call::Sqrt(fmul(a, a))) == a);
    }
    if of_ordinary_size(b) {
        assert(answer(math, Call::Sqrt(fmul(b, b))) == b);
    }
    assert(mag(0) == 0);
    if y.zero() {
        assert(y == lit(ZERO));
        law_zero_added(x);
    }
    if x.zero() {
        assert(x == lit(ZERO));
        law_zero_added(y);
    }
}

/// The shares by which the `i`-th target lies outside the envelope make its distance.
proof fn lemma_distance<M: Fn(Call) -> Real, S: Fn(Print) -> String>(
    math: M,
    show: S,
    all: Seq<Specimen>,
    req: FitRequest,
    r: FitResult,
    i: int,
) -> (shares: (Real, Real))
    requires
        result_is(math, show, all, req, r),
        0 <= i < req.targets@.len(),
        is_measured(req, r, i),
    ensures
        ({
            let p = r.predictions@[i];
            let e = r.envelope;
            let g = ground_of(math, all, req, r);
            let (tc, s) = (celsius_of(req, i), req.targets@[i].stress_mpa);
            let d = apart(math, shares.0, shares.1);
            &&& shares.0 == fdiv(
                gap_of(tc, e.min_temp_c, e.max_temp_c),
                span_of(e.min_temp_c, e.max_temp_c),
            )
            &&& shares.1 == fdiv(
                gap_of(s, e.min_stress_mpa, e.max_stress_mpa),
                span_of(e.min_stress_mpa, e.max_stress_mpa),
            )
            &&& p.normalized_distance == rounded_at(d, lit(THOUSAND))
            &&& p.risk@ == risk_of(
                p.within_envelope,
                d,
                leverage_of(math, g.plan, g.specs, kelvin_of(req, i), g.plan.x_of(math, s)),
                g.cutoff,
                g.bound,
            )
            &&& p.within_envelope <==> {
                &&& fle(e.min_temp_c, tc) && fle(tc, e.max_temp_c)
                &&& fle(e.min_stress_mpa, s) && fle(s, e.max_stress_mpa)
            }
        }),
{
    lemma_prediction(math, show, all, req, r, i);
    let e = r.envelope;
    let (tc, s) = (celsius_of(req, i), req.targets@[i].stress_mpa);
    lemma_share_outside(tc, e.min_temp_c, e.max_temp_c);
    lemma_share_outside(s, e.min_stress_mpa, e.max_stress_mpa);
    (
        fdiv(gap_of(tc, e.min_temp_c, e.max_temp_c), span_of(e.min_temp_c, e.max_temp_c)),
        fdiv(
            gap_of(s, e.min_stress_mpa, e.max_stress_mpa),
            span_of(e.min_stress_mpa, e.max_stress_mpa),
        ),
    )
}

/// Whether `a` is a share by which a target lies outside: above or below in temperature or
/// in stress.
pub open spec fn is_share(req: FitRequest, r: FitResult, i: int, a: Real) -> bool {
    let e = r.envelope;
    let (tc, s) = (celsius_of(req, i), req.targets@[i].stress_mpa);
    ||| flt(e.max_temp_c, tc) && a == over_by(tc, e.min_temp_c, e.max_temp_c)
    ||| flt(tc, e.min_temp_c) && a == under_by(tc, e.min_temp_c, e.max_temp_c)
    ||| flt(e.max_stress_mpa, s) && a == over_by(s, e.min_stress_mpa, e.max_stress_mpa)
    ||| flt(s, e.min_stress_mpa) && a == under_by(s, e.min_stress_mpa, e.max_stress_mpa)
}

/// A target outside the envelope is never reported as nearer than it lies in temperature or
/// in stress, and from a quarter of either range on its risk is high.
pub proof fn law_distance_counts_both<M: Fn(Call) -> Real, S: Fn(Print) -> String>(
    math: M,
    show: S,
    all: Seq<Specimen>,
    req: FitRequest,
    r: FitResult,
    i: int,
    a: Real,
)
    requires
        is_faithful(math),
        takes_roots(math),
        result_is(math, show, all, req, r),
        0 <= i < req.targets@.len(),
        is_measured(req, r, i),
        is_share(req, r, i, a),
        of_ordinary_size(a),
    ensures
        !r.predictions@[i].within_envelope,
        r.predictions@[i].risk@ != "low"@,
        fle(rounded_at(a, lit(THOUSAND)), r.predictions@[i].normalized_distance),
        fle(lit(QUARTER), a) ==> r.predictions@[i].risk@ == "high"@,
{
    let e = r.envelope;
    let (tc, s) = (celsius_of(req, i), req.targets@[i].stress_mpa);
    let (x, y) = lemma_distance(math, show, all, req, r, i);
    lemma_share_outside(tc, e.min_temp_c, e.max_temp_c);
    lemma_share_outside(s, e.min_stress_mpa, e.max_stress_mpa);
    lemma_apart(math, x, y, x, y);
    let d = apart(math, x, y);
    assert(fle(a, d));
    law_reports_keep_order(a, d, lit(THOUSAND));
    lemma_prediction(math, show, all, req, r, i);
    lemma_risk_words();
}

proof fn lemma_risk_words()
    ensures
        "low"@ != "medium"@,
        "low"@ != "high"@,
        "medium"@ != "high"@,
{
    reveal_strlit("low");
    reveal_strlit("medium");
    reveal_strlit("high");
    assert("low"@.len() == 3);
    assert("medium"@.len() == 6);
    assert("high"@.len() == 4);
}

/// Inside the envelope the distance is nothing and the target counts as within; outside by
/// temperature alone, or by stress alone, it is that share of the range, and by less than a
/// quarter the risk is medium, unless the leverage stands out or a parameter is at its bound.
pub proof fn law_distance_of_one_share<M: Fn(Call) -> Real, S: Fn(Print) -> String>(
    math: M,
    show: S,
    all: Seq<Specimen>,
    req: FitRequest,
    r: FitResult,
    i: int,
    a: Real,
)
    requires
        is_faithful(math),
        takes_roots(math),
        result_is(math, show, all, req, r),
        0 <= i < req.targets@.len(),
        is_measured(req, r, i),
    ensures
        ({
            let p = r.predictions@[i];
            let e = r.envelope;
            let (tc, s) = (celsius_of(req, i), req.targets@[i].stress_mpa);
            let g = ground_of(math, all, req, r);
            let t_in = fle(e.min_temp_c, tc) && fle(tc, e.max_temp_c);
            let s_in = fle(e.min_stress_mpa, s) && fle(s, e.max_stress_mpa);
            let stands_out = g.bound || flt(
                g.cutoff,
                leverage_of(math, g.plan, g.specs, kelvin_of(req, i), g.plan.x_of(math, s)),
            );
            &&& p.within_envelope <==> t_in && s_in
            &&& t_in && s_in ==> p.normalized_distance.zero() && p.risk@ == (if stands_out {
                "high"@
            } else {
                "low"@
            })
            &&& (t_in || s_in) && is_share(req, r, i, a) && of_ordinary_size(a) ==> {
                &&& p.normalized_distance == rounded_at(a, lit(THOUSAND))
                &&& flt(a, lit(QUARTER)) && !stands_out ==> p.risk@ == "medium"@
            }
            &&& stands_out ==> p.risk@ == "high"@
        }),
{
    let e = r.envelope;
    let (tc, s) = (celsius_of(req, i), req.targets@[i].stress_mpa);
    let (x, y) = lemma_distance(math, show, all, req, r, i);
    lemma_share_outside(tc, e.min_temp_c, e.max_temp_c);
    lemma_share_outside(s, e.min_stress_mpa, e.max_stress_mpa);
    lemma_apart(math, x, y, x, y);
    let d = apart(math, x, y);
    if d.zero() {
        lemma_nothing_reported(d);
    }
}

proof fn lemma_nothing_reported(d: Real)
    requires
        d.zero(),
    ensures
        rounded_at(d, lit(THOUSAND)).zero(),
{
    let q = pow2(ONE_EXPONENT as nat) as int;
    let m = mag(THOUSAND as int);
    lemma_pow2_pos(ONE_EXPONENT as nat);
    assert(mag(0) == 0);
    assert(0 * m == 0);
    lemma_zero_rounds(q);
    let y = fmul(d, lit(THOUSAND));
    assert(y.zero());
    lemma_integer_sign(y);
    lemma_size_of_share(finteger(y), lit(THOUSAND));
}

/// Whether `y` lies as far outside a range as `x` or further, on the same side where `x` is
/// outside.
pub open spec fn is_further(x: Real, y: Real, low: Real, high: Real) -> bool {
    ||| fle(low, x) && fle(x, high)
    ||| flt(high, x) && fle(x, y)
    ||| flt(x, low) && fle(y, x)
}

proof fn lemma_further(x: Real, y: Real, low: Real, high: Real)
    requires
        is_span(low, high),
        x.finite(),
        y.finite(),
        is_further(x, y, low, high),
    ensures
        fle(
            fdiv(gap_of(x, low, high), span_of(low, high)),
            fdiv(gap_of(y, low, high), span_of(low, high)),
        ),
{
    lemma_share_outside(x, low, high);
    lemma_share_outside(y, low, high);
    if flt(high, x) {
        law_sum_monotone(x, y, fneg(high));
    } else if flt(x, low) {
        law_difference_antitone(y, x, low);
    }
    law_quotient_monotone(gap_of(x, low, high), gap_of(y, low, high), span_of(low, high));
}

/// A target that lies further out in temperature and in stress is never reported as nearer.
pub proof fn law_distance_grows<M: Fn(Call) -> Real, S: Fn(Print) -> String>(
    math: M,
    show: S,
    all: Seq<Specimen>,
    req: FitRequest,
    r: FitResult,
    i: int,
    j: int,
)
    requires
        is_faithful(math),
        takes_roots(math),
        result_is(math, show, all, req, r),
        0 <= i < req.targets@.len(),
        0 <= j < req.targets@.len(),
        is_measured(req, r, i),
        is_measured(req, r, j),
        is_further(
            celsius_of(req, i),
            celsius_of(req, j),
            r.envelope.min_temp_c,
            r.envelope.max_temp_c,
        ),
        is_further(
            req.targets@[i].stress_mpa,
            req.targets@[j].stress_mpa,
            r.envelope.min_stress_mpa,
            r.envelope.max_stress_mpa,
        ),
    ensures
        fle(r.predictions@[i].normalized_distance, r.predictions@[j].normalized_distance),
{
    let e = r.envelope;
    let (x, y) = lemma_distance(math, show, all, req, r, i);
    let (v, w) = lemma_distance(math, show, all, req, r, j);
    lemma_further(celsius_of(req, i), celsius_of(req, j), e.min_temp_c, e.max_temp_c);
    lemma_further(
        req.targets@[i].stress_mpa,
        req.targets@[j].stress_mpa,
        e.min_stress_mpa,
        e.max_stress_mpa,
    );
    lemma_share_outside(celsius_of(req, i), e.min_temp_c, e.max_temp_c);
    lemma_share_outside(req.targets@[i].stress_mpa, e.min_stress_mpa, e.max_stress_mpa);
    lemma_apart(math, x, y, v, w);
    law_reports_keep_order(apart(math, x, y), apart(math, v, w), lit(THOUSAND));
}

/// The gaps that are reported are how far a target lies beyond the envelope, to two decimals,
/// and nothing on the inside.
pub proof fn law_gaps_are_reported<M: Fn(Call) -> Real, S: Fn(Print) -> String>(
    math: M,
    show: S,
    all: Seq<Specimen>,
    req: FitRequest,
    r: FitResult,
    i: int,
)
    requires
        result_is(math, show, all, req, r),
        0 <= i < req.targets@.len(),
        is_measured(req, r, i),
    ensures
        ({
            let p = r.predictions@[i];
            let e = r.envelope;
            let (tc, s) = (celsius_of(req, i), req.targets@[i].stress_mpa);
            let hundred = lit(HUNDRED);
            &&& flt(e.max_temp_c, tc) ==> p.distance_temp_c == rounded_at(
                fsub(tc, e.max_temp_c),
                hundred,
            )
            &&& flt(tc, e.min_temp_c) ==> p.distance_temp_c == rounded_at(
                fsub(e.min_temp_c, tc),
                hundred,
            )
            &&& fle(e.min_temp_c, tc) && fle(tc, e.max_temp_c) ==> p.distance_temp_c
                == rounded_at(lit(ZERO), hundred)
            &&& flt(e.max_stress_mpa, s) ==> p.distance_stress_mpa == rounded_at(
                fsub(s, e.max_stress_mpa),
                hundred,
            )
            &&& flt(s, e.min_stress_mpa) ==> p.distance_stress_mpa == rounded_at(
                fsub(e.min_stress_mpa, s),
                hundred,
            )
            &&& fle(e.min_stress_mpa, s) && fle(s, e.max_stress_mpa) ==> p.distance_stress_mpa
                == rounded_at(lit(ZERO), hundred)
        }),
{
    lemma_prediction(math, show, all, req, r, i);
}

/// Where a parameter is noted to be at its bound, every prediction is of high risk.
pub proof fn law_bound_is_high_risk<M: Fn(Call) -> Real, S: Fn(Print) -> String>(
    math: M,
    show: S,
    all: Seq<Specimen>,
    req: FitRequest,
    r: FitResult,
    i: int,
    j: int,
)
    requires
        result_is(math, show, all, req, r),
        0 <= i < req.targets@.len(),
        0 <= j < r.params@.len(),
        contains(r.params@[j].note@, "边界"@),
    ensures
        r.predictions@[i].risk@ == "high"@,
{
    lemma_prediction(math, show, all, req, r, i);
    assert(notes_bound(r.params@));
}

proof fn lemma_reported_cutoff<M: Fn(Call) -> Real, S: Fn(Print) -> String>(
    math: M,
    show: S,
    all: Seq<Specimen>,
    req: FitRequest,
    r: FitResult,
)
    requires
        result_is(math, show, all, req, r),
    ensures
        r.leverage_cutoff == rounded_at(ground_of(math, all, req, r).cutoff, lit(TEN_THOUSAND)),
{
}

proof fn lemma_above(a: Real, b: Real)
    requires
        flt(rounded_at(a, lit(TEN_THOUSAND)), rounded_at(b, lit(TEN_THOUSAND))),
    ensures
        flt(a, b),
{
    if fle(b, a) {
        law_reports_keep_order(b, a, lit(TEN_THOUSAND));
    }
}

/// A prediction whose leverage is reported above the cutoff is of high risk.
pub proof fn law_leverage_is_high_risk<M: Fn(Call) -> Real, S: Fn(Print) -> String>(
    math: M,
    show: S,
    all: Seq<Specimen>,
    req: FitRequest,
    r: FitResult,
    i: int,
)
    requires
        result_is(math, show, all, req, r),
        0 <= i < req.targets@.len(),
        flt(r.leverage_cutoff, r.predictions@[i].leverage),
    ensures
        r.predictions@[i].risk@ == "high"@,
{
    lemma_reported_cutoff(math, show, all, req, r);
    lemma_prediction(math, show, all, req, r, i);
    let g = ground_of(math, all, req, r);
    lemma_leverage(math, show, g, req, req.targets@[i], kelvin_of(req, i), r.predictions@[i]);
}

proof fn lemma_leverage<M: Fn(Call) -> Real, S: Fn(Print) -> String>(
    math: M,
    show: S,
    g: Ground,
    req: FitRequest,
    t: TargetIn,
    tk: Real,
    p: Prediction,
)
    requires
        prediction_is(math, show, g, req, t, tk, p),
        flt(rounded_at(g.cutoff, lit(TEN_THOUSAND)), p.leverage),
    ensures
        p.risk@ == "high"@,
{
    let l = leverage_of(math, g.plan, g.specs, tk, g.plan.x_of(math, t.stress_mpa));
    lemma_above(g.cutoff, l);
}

} // verus!
