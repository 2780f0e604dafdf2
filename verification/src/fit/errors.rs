//! What the standard errors, the spread and the cutoff of a report say of its fit.
use vstd::prelude::*;
use crate::fit::{FitRequest, FitResult};
use crate::fit::criterion::{lemma_count_doubled, lemma_room, lemma_twice_both};
use crate::fit::decimals::{law_reported_is_near, BILLION};
use crate::fit::master::{fclamp, MasterModel};
use crate::fit::problem::TAU_LOW;
use crate::fit::report::{at_bound, bound_warnings, mapped_error, offset_is, TEN_THOUSAND};
use crate::fit::run::{found, plan_of, result_is, spread_of};
use crate::fit::select::chosen;
use crate::host::{answer, is_faithful, of_ordinary_size, takes_roots, Call, Print};
use crate::number::{fabs, fle, flt, fneg, lit, mag, Real, BINADE};
use crate::number::arith::{fadd, fdiv, fmul, fsub, ONE_EXPONENT};
use crate::number::consts::{FOUR, HALF, ONE, TWO, ZERO};
use crate::number::convert::{fint, one_quanta};
use crate::number::error::{law_power_of_two, law_quotient_absolute, size_of};
use crate::number::order::{law_commutes, law_difference_shrinks, law_nearest_exists,
    law_product_exact, law_products_ordered, law_quotient_monotone, law_rounding_exact,
    law_rounding_monotone, law_rounding_scaled, law_share_at_most, law_sum_exact,
    law_sum_monotone, law_unit_factors, law_zero_added, lemma_double, lemma_one};
use crate::number::rounding::{lemma_mag, lemma_mag_monotone, rounded};
use crate::number::shape::{law_count_near, law_difference_is_felt, law_difference_not_negative,
    law_divisor_lowers, law_nothing_left, law_sum_bounded, lemma_nothing_times, lemma_over_one,
    lemma_quotient_of_counts, lemma_size_of_share, lemma_square_of_size};
use crate::specimen::Specimen;
use crate::text::views;
use vstd::arithmetic::power2::{lemma2_to64, lemma2_to64_rest, lemma_pow2_adds, lemma_pow2_pos,
    pow2};

verus! {

/// A positive number is once itself.
proof fn lemma_once(x: Real)
    requires
        flt(lit(ZERO), x),
        x.finite(),
    ensures
        fdiv(x, x) == lit(ONE),
{
    let q = pow2(ONE_EXPONENT as nat) as int;
    lemma_one();
    lemma_pow2_pos(ONE_EXPONENT as nat);
    assert(mag(0) == 0);
    lemma_mag_monotone(0, x.size());
    let y = mag(x.size());
    law_rounding_scaled(q, 1, y);
    law_rounding_exact(ONE as int);
    assert(y * q == q * y) by (nonlinear_arith);
    assert(1 * y == y);
}

proof fn lemma_no_slope<M: Fn(Call) -> Real>(math: M, range: Real, p: Real, var: Real)
    requires
        takes_roots(math),
        range.finite(),
        var.finite(),
        p.zero() || p == lit(ONE),
    ensures
        mapped_error(math, range, p, var).zero(),
{
    let rest = fsub(lit(ONE), p);
    let d = fmul(fmul(range, p), rest);
    if p.zero() {
        lemma_nothing_times(p, range);
        assert(rest == lit(ONE)) by {
            assert(mag(0) == 0);
            lemma_one();
            lemma_pow2_pos(ONE_EXPONENT as nat);
            law_sum_exact(lit(ONE), fneg(p), lit(ONE));
        }
        lemma_nothing_times(fmul(range, p), rest);
    } else {
        law_unit_factors(range);
        law_nothing_left(lit(ONE));
        lemma_nothing_times(rest, range);
    }
    lemma_nothing_times(d, d);
    lemma_nothing_times(fmul(d, d), var);
}

/// A parameter at either of its bounds is reported without an error: the searched value
/// moves it no further.
pub proof fn law_no_error_at_bounds<M: Fn(Call) -> Real, S: Fn(Print) -> String>(
    math: M,
    show: S,
    all: Seq<Specimen>,
    req: FitRequest,
    r: FitResult,
    model: MasterModel,
    i: int,
)
    requires
        takes_roots(math),
        result_is(math, show, all, req, r),
        MasterModel::named(req.model@) == Some(model),
        0 <= i < 4,
        r.params@[i].se is Some,
        variance_at(math, all, req, i).finite(),
        r.params@[i].value == model.bounds_of()[i].0 || r.params@[i].value
            == model.bounds_of()[i].1,
    ensures
        (r.params@[i].se->0).zero(),
{
    let (lo, up) = model.bounds_of()[i];
    let range = fsub(up, lo);
    lemma_wide_range(model, i);
    let v = r.params@[i].value;
    let p = fdiv(fsub(v, lo), range);
    if v == lo {
        law_nothing_left(lo);
        lemma_size_of_share(fsub(v, lo), range);
    } else {
        lemma_once(range);
    }
    lemma_no_slope(math, range, p, variance_at(math, all, req, i));
}

/// The variance of the `i`-th searched value of a fit.
pub open spec fn variance_at<M: Fn(Call) -> Real>(
    math: M,
    all: Seq<Specimen>,
    req: FitRequest,
    i: int,
) -> Real {
    let specs = chosen(all, req.criterion@, req.damage_model, all.len());
    spread_of(math, plan_of(req, specs), specs).0[i][i]
}

/// 2^15
const HALF_WIDTH: u64 = 0x40e0_0000_0000_0000;

/// 2^16
const WIDTH: u64 = 0x40f0_0000_0000_0000;

/// 2^32
const WIDTH_SQUARED: u64 = 0x41f0_0000_0000_0000;

proof fn lemma_wide_range(model: MasterModel, i: int)
    requires
        0 <= i < 4,
    ensures
        ({
            let (lo, up) = model.bounds_of()[i];
            &&& lo.finite()
            &&& up.finite()
            &&& fsub(up, lo).finite()
            &&& flt(lit(ZERO), fsub(up, lo))
            &&& fsub(up, lo).size() <= WIDTH
        }),
{
    let (lo, up) = model.bounds_of()[i];
    law_difference_is_felt(lo, up);
    assert(mag(0) == 0);
    lemma_double(HALF_WIDTH as int);
    lemma_bounded(lo);
    lemma_bounded(up);
    law_sum_bounded(up, fneg(lo), WIDTH as int);
}

proof fn lemma_bounded(x: Real)
    requires
        x.size() <= HALF_WIDTH,
    ensures
        0 <= mag(x.size()) <= mag(HALF_WIDTH as int),
{
    assert(mag(0) == 0);
    if x.size() < HALF_WIDTH {
        lemma_mag_monotone(x.size(), HALF_WIDTH as int);
    }
    if x.size() > 0 {
        lemma_mag_monotone(0, x.size());
    }
}

/// The slope of a parameter in its searched value is a number whose square is one.
proof fn lemma_slope(range: Real, p: Real)
    requires
        flt(lit(ZERO), range),
        range.size() <= WIDTH,
        fle(lit(ZERO), p),
        fle(p, lit(ONE)),
    ensures
        ({
            let d = fmul(fmul(range, p), fsub(lit(ONE), p));
            &&& fle(lit(ZERO), fmul(d, d))
            &&& fmul(d, d).finite()
        }),
{
    let rest = fsub(lit(ONE), p);
    law_difference_not_negative(p, lit(ONE));
    law_difference_shrinks(lit(ONE), p);
    law_share_at_most(range, p);
    let a = fmul(range, p);
    law_share_at_most(a, rest);
    let d = fmul(a, rest);
    let w = lit(WIDTH);
    law_products_ordered(d, w, d, w);
    law_power_of_two(WIDTH as int, 16);
    law_power_of_two(WIDTH_SQUARED as int, 32);
    lemma_pow2_adds(1090, 1090);
    lemma_pow2_adds(1106, 1074);
    law_product_exact(w, w, lit(WIDTH_SQUARED));
}

proof fn lemma_error_grows<M: Fn(Call) -> Real>(math: M, range: Real, p: Real, v: Real, w: Real)
    requires
        takes_roots(math),
        flt(lit(ZERO), range),
        range.size() <= WIDTH,
        fle(lit(ZERO), p),
        fle(p, lit(ONE)),
        fle(lit(ZERO), v),
        fle(v, w),
        w.finite(),
    ensures
        fle(mapped_error(math, range, p, v), mapped_error(math, range, p, w)),
{
    lemma_slope(range, p);
    let d = fmul(fmul(range, p), fsub(lit(ONE), p));
    let e = fmul(d, d);
    law_products_ordered(e, e, v, w);
    let (x, y) = (fabs(fmul(e, v)), fabs(fmul(e, w)));
    assert(fle(lit(ZERO), x) && fle(x, y));
    assert(fle(answer(math, Call::Sqrt(x)), answer(math, Call::Sqrt(y))));
}

/// Of two fits that report the same value of a parameter, the one with the greater variance
/// of the searched value never reports the lesser error.
pub proof fn law_error_grows_with_variance<M: Fn(Call) -> Real, S: Fn(Print) -> String>(
    math: M,
    show: S,
    all: Seq<Specimen>,
    req: FitRequest,
    r: FitResult,
    others: Seq<Specimen>,
    other: FitRequest,
    s: FitResult,
    model: MasterModel,
    i: int,
)
    requires
        takes_roots(math),
        result_is(math, show, all, req, r),
        result_is(math, show, others, other, s),
        MasterModel::named(req.model@) == Some(model),
        req.model@ == other.model@,
        0 <= i < 4,
        r.params@[i].value == s.params@[i].value,
        fle(model.bounds_of()[i].0, r.params@[i].value),
        fle(r.params@[i].value, model.bounds_of()[i].1),
        r.params@[i].se is Some,
        s.params@[i].se is Some,
        fle(lit(ZERO), variance_at(math, all, req, i)),
        fle(variance_at(math, all, req, i), variance_at(math, others, other, i)),
        variance_at(math, others, other, i).finite(),
    ensures
        fle(r.params@[i].se->0, s.params@[i].se->0),
{
    let (lo, up) = model.bounds_of()[i];
    let range = fsub(up, lo);
    lemma_wide_range(model, i);
    let v = r.params@[i].value;
    let p = fdiv(fsub(v, lo), range);
    law_difference_not_negative(lo, v);
    law_sum_monotone(v, up, fneg(lo));
    law_quotient_monotone(fsub(v, lo), range, range);
    lemma_once(range);
    let (x, y) = (variance_at(math, all, req, i), variance_at(math, others, other, i));
    lemma_error_grows(math, range, p, x, y);
    assert(r.params@[i].se == Some(mapped_error(math, range, p, x)));
    assert(s.params@[i].se == Some(mapped_error(math, range, p, y)));
}

/// The half of 4 twice is 1.
proof fn lemma_middle()
    ensures
        fdiv(lit(TWO), lit(FOUR)) == lit(HALF),
        fmul(lit(FOUR), lit(HALF)) == lit(TWO),
        fsub(lit(ONE), lit(HALF)) == lit(HALF),
        fmul(lit(TWO), lit(HALF)) == lit(ONE),
{
    let q = pow2(ONE_EXPONENT as nat) as int;
    lemma_one();
    lemma_pow2_pos(ONE_EXPONENT as nat);
    lemma_double(HALF as int);
    lemma_double(ONE as int);
    lemma_double(TWO as int);
    let h = mag(HALF as int);
    assert(h * (4 * q) == (2 * q) * q) by (nonlinear_arith)
        requires
            2 * h == q,
    ;
    law_rounding_scaled(h, 1, 4 * q);
    law_rounding_exact(HALF as int);
    assert((4 * q) * h == (2 * q) * q) by (nonlinear_arith)
        requires
            2 * h == q,
    ;
    assert((2 * q) * h == q * q) by (nonlinear_arith)
        requires
            2 * h == q,
    ;
    law_product_exact(lit(FOUR), lit(HALF), lit(TWO));
    law_product_exact(lit(TWO), lit(HALF), lit(ONE));
    law_sum_exact(lit(ONE), fneg(lit(HALF)), lit(HALF));
}

/// The error of an offset of zero is the root of the variance of its searched value: no less
/// than a number whose square the variance holds, and no more than one whose square holds it.
pub proof fn law_error_of_middle_offset<M: Fn(Call) -> Real, S: Fn(Print) -> String>(
    math: M,
    show: S,
    all: Seq<Specimen>,
    req: FitRequest,
    r: FitResult,
    i: int,
    x: Real,
)
    requires
        takes_roots(math),
        result_is(math, show, all, req, r),
        0 < i < r.heat_offsets@.len(),
        r.heat_offsets@[i].value.zero(),
        r.heat_offsets@[i].se is Some,
        fle(lit(ZERO), variance_at(math, all, req, 3 + i)),
        variance_at(math, all, req, 3 + i).finite(),
        of_ordinary_size(x),
    ensures
        ({
            let v = variance_at(math, all, req, 3 + i);
            let se = r.heat_offsets@[i].se->0;
            &&& fle(fmul(x, x), v) ==> fle(x, se)
            &&& fle(v, fmul(x, x)) ==> fle(se, x)
        }),
{
    let v = variance_at(math, all, req, 3 + i);
    let b = r.heat_offsets@[i].value;
    let specs = chosen(all, req.criterion@, req.damage_model, all.len());
    let plan = plan_of(req, specs);
    let u = found(math, plan, specs).0;
    let cov = spread_of(math, plan, specs).0;
    assert(offset_is(math, show, plan, u, cov, i, r.heat_offsets@[i]));
    lemma_middle_error(math, b, v, x);
}

proof fn lemma_middle_error<M: Fn(Call) -> Real>(math: M, b: Real, v: Real, x: Real)
    requires
        takes_roots(math),
        b.zero(),
        fle(lit(ZERO), v),
        v.finite(),
        of_ordinary_size(x),
    ensures
        ({
            let se = mapped_error(math, lit(FOUR), fdiv(fadd(b, lit(TWO)), lit(FOUR)), v);
            &&& fle(fmul(x, x), v) ==> fle(x, se)
            &&& fle(v, fmul(x, x)) ==> fle(se, x)
        }),
{
    assert(mag(0) == 0);
    lemma_middle();
    lemma_one();
    lemma_double(ONE as int);
    lemma_pow2_pos(ONE_EXPONENT as nat);
    law_sum_exact(b, lit(TWO), lit(TWO));
    law_unit_factors(lit(ONE));
    law_unit_factors(v);
    law_commutes(lit(ONE), v);
    let a = fabs(v);
    lemma_square_of_size(x);
    assert(answer(math, Call::Sqrt(fmul(x, x))) == x);
    assert(fle(lit(ZERO), a) && fle(a, v) && fle(v, a));
    let se = answer(math, Call::Sqrt(a));
    assert(fle(fmul(x, x), a) ==> fle(x, se));
}

/// The spread of a report lies between the exponentials of -8 and 4.
pub proof fn law_spread_is_held<M: Fn(Call) -> Real, S: Fn(Print) -> String>(
    math: M,
    show: S,
    all: Seq<Specimen>,
    req: FitRequest,
    r: FitResult,
)
    requires
        is_faithful(math),
        result_is(math, show, all, req, r),
        forall|x: Real| x.nan() ==> (#[trigger] answer(math, Call::Exp(x))).nan(),
        !r.tau_log10h.nan(),
    ensures
        fle(answer(math, Call::Exp(lit(0xc020_0000_0000_0000))), r.tau_log10h),
        fle(r.tau_log10h, answer(math, Call::Exp(lit(FOUR)))),
{
    let specs = chosen(all, req.criterion@, req.damage_model, all.len());
    let plan = plan_of(req, specs);
    let u = found(math, plan, specs).0;
    assert(r.tau_log10h == plan.tau(math, u));
    lemma_held(math, u[4 + plan.n_heat() as int]);
}

proof fn lemma_held<M: Fn(Call) -> Real>(math: M, v: Real)
    requires
        is_faithful(math),
        forall|x: Real| x.nan() ==> (#[trigger] answer(math, Call::Exp(x))).nan(),
        !answer(math, Call::Exp(fclamp(v, lit(TAU_LOW), lit(FOUR)))).nan(),
    ensures
        ({
            let t = answer(math, Call::Exp(fclamp(v, lit(TAU_LOW), lit(FOUR))));
            &&& fle(answer(math, Call::Exp(lit(TAU_LOW))), t)
            &&& fle(t, answer(math, Call::Exp(lit(FOUR))))
        }),
{
    let c = fclamp(v, lit(TAU_LOW), lit(FOUR));
    assert(fle(lit(TAU_LOW), c) && fle(c, lit(FOUR)));
}

/// The cutoff for leverages is twice their mean, the number of free parameters by that of
/// specimens, within two ten-thousandths.
pub proof fn law_cutoff_is_twice_the_mean<M: Fn(Call) -> Real, S: Fn(Print) -> String>(
    math: M,
    show: S,
    all: Seq<Specimen>,
    req: FitRequest,
    r: FitResult,
)
    requires
        result_is(math, show, all, req, r),
        r.n_free_params <= 0x10_0000,
        0 < r.n_included <= 0x10_0000,
    ensures
        r.leverage_cutoff.finite(),
        10_000 * size_of(
            r.leverage_cutoff.value() * r.n_included - 2 * (r.n_free_params * one_quanta()),
        ) <= 2 * (r.n_included * one_quanta()),
{
    let q = one_quanta();
    let (k, n) = (r.n_free_params as int, r.n_included as int);
    lemma_cutoff(k, n);
    let c = fdiv(fmul(lit(TWO), fint(k)), fint(n));
    lemma_ten_thousand();
    law_reported_is_near(c, lit(TEN_THOUSAND), 10_000);
    let (x, y) = (r.leverage_cutoff.value(), c.value());
    let (e, f) = (size_of(x - y), size_of(y * n - 2 * (k * q)));
    let w = size_of(x * n - 2 * (k * q));
    assert(w <= n * e + f) by (nonlinear_arith)
        requires
            e == size_of(x - y),
            f == size_of(y * n - 2 * (k * q)),
            w == size_of(x * n - 2 * (k * q)),
            0 < n,
    ;
    assert(10_000 * w <= 2 * (n * q)) by (nonlinear_arith)
        requires
            w <= n * e + f,
            10_000 * e <= q,
            0x10_0000 * f <= q,
            0 < n,
            0 < q,
    ;
}

proof fn lemma_ten_thousand()
    ensures
        lit(TEN_THOUSAND).value() == 10_000 * one_quanta(),
        0 < one_quanta(),
{
    let b = BINADE as int;
    let t: int = 1035;
    let h: int = TEN_THOUSAND - t * b;
    lemma_mag(t, h);
    lemma2_to64();
    lemma2_to64_rest();
    lemma_pow2_pos(ONE_EXPONENT as nat);
    lemma_pow2_adds(39, 1035);
    let w = pow2(1035) as int;
    assert(h * w == 10_000 * (0x80_0000_0000 * w)) by (nonlinear_arith)
        requires
            h == 0x13_8800_0000_0000,
    ;
}

/// Twice a count by another.
proof fn lemma_cutoff(k: int, n: int)
    requires
        0 <= k <= 0x10_0000,
        0 < n <= 0x10_0000,
    ensures
        ({
            let c = fdiv(fmul(lit(TWO), fint(k)), fint(n));
            &&& fle(fabs(c), lit(BILLION))
            &&& 0x10_0000 * size_of(c.value() * n - 2 * (k * one_quanta())) <= one_quanta()
        }),
{
    let q = one_quanta();
    lemma_room();
    lemma_one();
    lemma_pow2_pos(ONE_EXPONENT as nat);
    assert(mag(0) == 0);
    lemma_twice_both(lit(ZERO), k);
    lemma_count_doubled(k);
    law_count_near(k);
    law_count_near(n);
    let z = lit(ZERO);
    lemma_nothing_times(z, lit(TWO));
    let a = fmul(lit(TWO), fint(k));
    let two = mag(TWO as int);
    assert(0 <= two * mag(fint(k).size())) by (nonlinear_arith)
        requires
            0 <= two,
            0 <= mag(fint(k).size()),
    ;
    law_nearest_exists(two * mag(fint(k).size()), q);
    assert(two * 0 == 0);
    law_nearest_exists(0, q);
    assert(fmul(lit(TWO), z) == z);
    law_zero_added(a);
    let d = fint(n);
    law_rounding_exact(ONE as int);
    assert(1 * q == q);
    assert(q <= n * q) by (nonlinear_arith)
        requires
            0 < n,
            0 < q,
    ;
    law_rounding_monotone(q, n * q, 1);
    law_nearest_exists(n * q, 1);
    assert(d.size() == rounded(n * q, 1));
    law_divisor_lowers(a, lit(ONE), d);
    lemma_over_one(a);
    let c = fdiv(a, d);
    law_quotient_absolute(a, d);
    assert(2 * (k * q) == (2 * k) * q) by (nonlinear_arith);
    lemma_quotient_of_counts(c.value(), a.value(), d.value(), 2 * k, n, q);
}

/// A parameter whose note is not empty is named in a warning.
pub proof fn law_noted_bounds_are_warned_of<M: Fn(Call) -> Real, S: Fn(Print) -> String>(
    math: M,
    show: S,
    all: Seq<Specimen>,
    req: FitRequest,
    r: FitResult,
    i: int,
)
    requires
        result_is(math, show, all, req, r),
        0 <= i < 4,
        r.params@[i].note@ != ""@,
    ensures
        views(r.warnings@).contains("参数 "@ + r.params@[i].name@ + " 靠近边界，边界约束活跃"@),
{
    let specs = chosen(all, req.criterion@, req.damage_model, all.len());
    let plan = plan_of(req, specs);
    let u = found(math, plan, specs).0;
    assert(at_bound(u[i]));
    lemma_warned(plan.model, u, 4, i);
    let ws = bound_warnings(plan.model, u, 4);
    let text = "参数 "@ + plan.model.names()[i] + " 靠近边界，边界约束活跃"@;
    let j = choose|j: int| 0 <= j < ws.len() && ws[j] == text;
    let all_of = views(r.warnings@);
    assert(all_of[all_of.len() - ws.len() + j] == text);
}

proof fn lemma_warned(model: MasterModel, u: Seq<Real>, k: nat, i: int)
    requires
        0 <= i < k,
        at_bound(u[i]),
    ensures
        bound_warnings(model, u, k).contains(
            "参数 "@ + model.names()[i] + " 靠近边界，边界约束活跃"@,
        ),
    decreases k,
{
    let text = "参数 "@ + model.names()[i] + " 靠近边界，边界约束活跃"@;
    let ws = bound_warnings(model, u, k);
    if i == k - 1 {
        assert(ws[ws.len() - 1] == text);
    } else {
        lemma_warned(model, u, (k - 1) as nat, i);
        let before = bound_warnings(model, u, (k - 1) as nat);
        let j = choose|j: int| 0 <= j < before.len() && before[j] == text;
        assert(ws[j] == text);
    }
}

} // verus!
