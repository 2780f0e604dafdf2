//! Bounds on computed numbers by literal ones, in integers.
use vstd::prelude::*;
use super::{fle, fneg, lit, mag, Real, BINADE};
use super::arith::{fadd, fdiv, fmul, fsub, ONE_EXPONENT};
use super::consts::ONE;
use super::order::{law_commutes, law_negation, law_nearest_exists, law_rounding_exact,
    law_rounding_ratio, law_sum_within, lemma_one, lemma_ranks_values};
use vstd::arithmetic::power2::{lemma2_to64, lemma2_to64_rest, lemma_pow2_adds, lemma_pow2_pos,
    pow2};

verus! {

/// 2^-102, in which the bounds are counted.
pub open spec fn unit() -> int {
    pow2(972) as int
}

/// The units in 1.
pub open spec fn one_units() -> int {
    0x40_0000_0000_0000_0000_0000_0000
}

/// Whether the positive number with the pattern `bits` is one of 2^-50 or more, and `m` units.
pub open spec fn counts(bits: u64, m: int) -> bool {
    &&& 973 * BINADE <= bits < 1037 * BINADE
    &&& m == (BINADE + bits % BINADE) * pow2((bits / BINADE - 973) as nat)
}

/// Two positive numbers and the units in each.
pub struct Range {
    pub low: u64,
    pub high: u64,
    pub l: int,
    pub h: int,
}

pub open spec fn is_range(r: Range) -> bool {
    counts(r.low, r.l) && counts(r.high, r.h)
}

/// Whether `x` lies between the two.
pub open spec fn between(x: Real, r: Range) -> bool {
    &&& is_range(r)
    &&& fle(lit(r.low), x)
    &&& fle(x, lit(r.high))
}

/// The units in a number, where those in one of its significand's are `s` and `t`.
pub proof fn lemma_range(r: Range, s: int, t: int)
    requires
        973 * BINADE <= r.low < 1037 * BINADE,
        973 * BINADE <= r.high < 1037 * BINADE,
        s == pow2((r.low / BINADE - 973) as nat),
        t == pow2((r.high / BINADE - 973) as nat),
        r.l == (BINADE + r.low % BINADE) * s,
        r.h == (BINADE + r.high % BINADE) * t,
    ensures
        is_range(r),
{
}

proof fn lemma_counts(bits: u64, m: int)
    requires
        counts(bits, m),
    ensures
        lit(bits).finite(),
        !lit(bits).neg(),
        lit(bits).value() == m * unit(),
        0 < unit(),
        0 < m,
{
    let b = BINADE as int;
    let n = bits as int;
    let e = n / b;
    assert(973 <= e < 1037) by (nonlinear_arith)
        requires
            973 * b <= n < 1037 * b,
            b == 0x0010_0000_0000_0000,
            e == n / b,
    ;
    lemma_pow2_adds((e - 973) as nat, 972);
    lemma_pow2_pos(972);
    lemma_pow2_pos((e - 973) as nat);
    let k = b + n % b;
    let x = pow2((e - 973) as nat) as int;
    let y = pow2(972) as int;
    assert(k * (x * y) == k * x * y) by (nonlinear_arith);
    assert(0 < k * x) by (nonlinear_arith)
        requires
            0 < k,
            0 < x,
    ;
}

/// What a number between bounds is, in units.
pub proof fn lemma_between(x: Real, r: Range)
    requires
        between(x, r),
    ensures
        x.finite(),
        !x.neg(),
        0 < r.l,
        r.l * unit() <= x.value() <= r.h * unit(),
        0 < x.value(),
        0 < unit(),
        0 < r.h,
{
    lemma_counts(r.low, r.l);
    lemma_counts(r.high, r.h);
    lemma_ranks_values(lit(r.low), x);
    lemma_ranks_values(x, lit(r.high));
    let u = unit();
    let l = r.l;
    assert(0 < l * u) by (nonlinear_arith)
        requires
            0 < l,
            0 < u,
    ;
    assert(mag(0) == 0);
}

proof fn lemma_one_counts()
    ensures
        counts(ONE, one_units()),
        one_units() * unit() == pow2(ONE_EXPONENT as nat),
{
    lemma2_to64();
    lemma2_to64_rest();
    lemma_range(
        Range { low: ONE, high: ONE, l: one_units(), h: one_units() },
        0x4_0000_0000_0000,
        0x4_0000_0000_0000,
    );
    lemma_counts(ONE, one_units());
    lemma_one();
}

/// The sum of a number between bounds and a literal.
pub proof fn law_bounded_sum(x: Real, r: Range, c: u64, k: int, to: Range)
    requires
        between(x, r),
        counts(c, k),
        is_range(to),
        to.l <= r.l + k,
        r.h + k <= to.h,
    ensures
        between(fadd(x, lit(c)), to),
        between(fadd(lit(c), x), to),
{
    let u = unit();
    lemma_counts(r.low, r.l);
    lemma_counts(r.high, r.h);
    lemma_counts(c, k);
    lemma_counts(to.low, to.l);
    lemma_counts(to.high, to.h);
    let (a, b, m, n) = (r.l, r.h, to.l, to.h);
    assert(m * u <= a * u + k * u && b * u + k * u <= n * u) by (nonlinear_arith)
        requires
            m <= a + k,
            b + k <= n,
            0 < u,
    ;
    law_sum_within(x, lit(r.low), lit(r.high), lit(c), lit(to.low), lit(to.high));
    law_commutes(x, lit(c));
}

/// A literal less a number between bounds.
pub proof fn law_bounded_rest(c: u64, k: int, x: Real, r: Range, to: Range)
    requires
        between(x, r),
        counts(c, k),
        is_range(to),
        to.l <= k - r.h,
        k - r.l <= to.h,
    ensures
        between(fsub(lit(c), x), to),
{
    let u = unit();
    lemma_counts(r.low, r.l);
    lemma_counts(r.high, r.h);
    lemma_counts(c, k);
    lemma_counts(to.low, to.l);
    lemma_counts(to.high, to.h);
    let (a, b, m, n) = (r.l, r.h, to.l, to.h);
    assert(m * u <= k * u - b * u && k * u - a * u <= n * u) by (nonlinear_arith)
        requires
            m <= k - b,
            k - a <= n,
            0 < u,
    ;
    law_negation(lit(r.low), x);
    law_negation(x, lit(r.high));
    law_sum_within(
        fneg(x),
        fneg(lit(r.high)),
        fneg(lit(r.low)),
        lit(c),
        lit(to.low),
        lit(to.high),
    );
    law_commutes(fneg(x), lit(c));
}

/// A number between bounds less a literal.
pub proof fn law_bounded_difference(x: Real, r: Range, c: u64, k: int, to: Range)
    requires
        between(x, r),
        counts(c, k),
        is_range(to),
        to.l <= r.l - k,
        r.h - k <= to.h,
    ensures
        between(fsub(x, lit(c)), to),
{
    let u = unit();
    lemma_counts(r.low, r.l);
    lemma_counts(r.high, r.h);
    lemma_counts(c, k);
    lemma_counts(to.low, to.l);
    lemma_counts(to.high, to.h);
    let (a, b, m, n) = (r.l, r.h, to.l, to.h);
    assert(m * u <= a * u - k * u && b * u - k * u <= n * u) by (nonlinear_arith)
        requires
            m <= a - k,
            b - k <= n,
            0 < u,
    ;
    law_sum_within(x, lit(r.low), lit(r.high), fneg(lit(c)), lit(to.low), lit(to.high));
}

/// The product of two numbers between bounds.
pub proof fn law_bounded_product(x: Real, r: Range, y: Real, s: Range, to: Range)
    requires
        between(x, r),
        between(y, s),
        is_range(to),
        to.l * one_units() <= r.l * s.l,
        r.h * s.h <= to.h * one_units(),
    ensures
        between(fmul(x, y), to),
        between(fmul(y, x), to),
{
    let u = unit();
    lemma_between(x, r);
    lemma_between(y, s);
    lemma_counts(to.low, to.l);
    lemma_counts(to.high, to.h);
    lemma_one_counts();
    let q = pow2(ONE_EXPONENT as nat) as int;
    lemma_pow2_pos(ONE_EXPONENT as nat);
    let (a, b, c, d, m, n) = (r.l, r.h, s.l, s.h, to.l, to.h);
    let k = one_units();
    let v = x.value();
    let w = y.value();
    assert((m * u) * q <= v * w && v * w <= (n * u) * q) by (nonlinear_arith)
        requires
            m * k <= a * c,
            b * d <= n * k,
            a * u <= v <= b * u,
            c * u <= w <= d * u,
            k * u == q,
            0 < u,
            0 < a,
            0 < c,
            0 < m,
            0 < n,
    ;
    assert(0 <= v * w) by (nonlinear_arith)
        requires
            0 <= v,
            0 <= w,
    ;
    law_nearest_exists(v * w, q);
    assert((v * w) * 1 == v * w);
    law_rounding_ratio(m * u, 1, v * w, q);
    law_rounding_ratio(v * w, q, n * u, 1);
    law_rounding_exact(lit(to.low).size());
    law_rounding_exact(lit(to.high).size());
    law_commutes(x, y);
}

/// The quotient of two numbers between bounds.
pub proof fn law_bounded_quotient(x: Real, r: Range, y: Real, s: Range, to: Range)
    requires
        between(x, r),
        between(y, s),
        is_range(to),
        to.l * s.h <= r.l * one_units(),
        r.h * one_units() <= to.h * s.l,
    ensures
        between(fdiv(x, y), to),
{
    let u = unit();
    lemma_between(x, r);
    lemma_between(y, s);
    lemma_counts(to.low, to.l);
    lemma_counts(to.high, to.h);
    lemma_one_counts();
    let q = pow2(ONE_EXPONENT as nat) as int;
    lemma_pow2_pos(ONE_EXPONENT as nat);
    let (a, b, c, d, m, n) = (r.l, r.h, s.l, s.h, to.l, to.h);
    let k = one_units();
    let v = x.value();
    let w = y.value();
    assert((m * u) * w <= v * q && v * q <= (n * u) * w) by (nonlinear_arith)
        requires
            m * d <= a * k,
            b * k <= n * c,
            a * u <= v <= b * u,
            c * u <= w <= d * u,
            k * u == q,
            0 < u,
            0 < a,
            0 < c,
            0 < m,
            0 < n,
    ;
    assert(0 <= v * q) by (nonlinear_arith)
        requires
            0 < v,
            0 < q,
    ;
    law_nearest_exists(v * q, w);
    assert((v * q) * 1 == v * q);
    law_rounding_ratio(m * u, 1, v * q, w);
    law_rounding_ratio(v * q, w, n * u, 1);
    law_rounding_exact(lit(to.low).size());
    law_rounding_exact(lit(to.high).size());
}

} // verus!
