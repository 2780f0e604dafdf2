//! How the arithmetic keeps the order of the numbers.
use vstd::prelude::*;
use super::{fle, flt, fneg, lit, mag, signed, Real, BINADE, INF};
use vstd::arithmetic::div_mod::lemma_fundamental_div_mod;
use vstd::arithmetic::power2::{lemma2_to64_rest, lemma_pow2_adds, lemma_pow2_pos,
    lemma_pow2_strictly_increases, lemma_pow2_unfold, pow2};
use super::arith::{fadd, fdiv, fmul, fround, fsub, ONE_EXPONENT};
use super::consts::{FOUR, HALF, ONE, ZERO};
use super::convert::{finteger, one_quanta, whole};
use super::rounding::{at_least_mid, at_most_mid, binade_of, lemma_mag, lemma_mag_monotone,
    lemma_mag_next, lemma_rounded, rounded, rounds};

verus! {

proof fn lemma_nearest_from(p: int, q: int, k: int)
    requires
        0 <= k <= INF,
        0 < k ==> at_least_mid(p, q, k - 1, k % 2 == 0),
    ensures
        exists|n: int| rounds(p, q, n),
    decreases INF - k,
{
    if k == INF || at_most_mid(p, q, k, k % 2 == 0) {
        assert(rounds(p, q, k));
    } else {
        lemma_nearest_from(p, q, k + 1);
    }
}

/// Every magnitude has a nearest pattern.
pub proof fn law_nearest_exists(p: int, q: int)
    requires
        0 <= p,
        0 < q,
    ensures
        rounds(p, q, rounded(p, q)),
{
    lemma_nearest_from(p, q, 0);
}

/// Rounding keeps the order.
pub proof fn law_rounding_monotone(p1: int, p2: int, q: int)
    requires
        0 <= p1 <= p2,
        0 < q,
    ensures
        rounded(p1, q) <= rounded(p2, q),
{
    law_nearest_exists(p1, q);
    law_nearest_exists(p2, q);
    let n1 = rounded(p1, q);
    let n2 = rounded(p2, q);
    if n2 < n1 {
        let low = mag(n2) + mag(n2 + 1);
        let high = mag(n1 - 1) + mag(n1);
        if n2 < n1 - 1 {
            lemma_mag_monotone(n2, n1 - 1);
            lemma_mag_monotone(n2 + 1, n1);
            assert(low * q < high * q) by (nonlinear_arith)
                requires
                    low < high,
                    0 < q,
            ;
        }
    }
}

/// A representable magnitude rounds to itself.
pub proof fn law_rounding_exact(n: int)
    requires
        0 <= n < INF,
    ensures
        rounded(mag(n), 1) == n,
{
    lemma_mag_next(n);
    if n > 0 {
        lemma_mag_next(n - 1);
    }
    assert(rounds(mag(n), 1, n));
    lemma_rounded(mag(n), 1, n);
}

/// The rank of a sum whose exact value is `v`.
spec fn round_rank(v: int) -> int {
    if v == 0 {
        0
    } else {
        fround(v, 1).rank()
    }
}

proof fn lemma_round_rank(v: int)
    ensures
        round_rank(v) == (if v < 0 {
            -rounded(-v, 1)
        } else {
            rounded(v, 1)
        }),
        v != 0 ==> !fround(v, 1).nan(),
        0 <= rounded(if v < 0 {
            -v
        } else {
            v
        }, 1) <= INF,
{
    let m = if v < 0 {
        -v
    } else {
        v
    };
    law_nearest_exists(m, 1);
    assert(mag(0) == 0);
    if v == 0 {
        law_rounding_exact(0);
    }
}

proof fn lemma_round_rank_monotone(v1: int, v2: int)
    requires
        v1 <= v2,
    ensures
        round_rank(v1) <= round_rank(v2),
{
    lemma_round_rank(v1);
    lemma_round_rank(v2);
    if v1 >= 0 {
        law_rounding_monotone(v1, v2, 1);
    } else if v2 < 0 {
        law_rounding_monotone(-v2, -v1, 1);
    }
}

proof fn lemma_value_rank(a: Real)
    requires
        a.finite(),
    ensures
        round_rank(a.value()) == a.rank(),
        a.rank() >= 0 ==> a.value() >= 0,
        a.rank() <= 0 ==> a.value() <= 0,
{
    let n = a.size();
    assert(0 <= n);
    assert(mag(0) == 0);
    lemma_round_rank(a.value());
    law_rounding_exact(n);
    lemma_mag_next(n);
    if n > 0 {
        lemma_mag_monotone(0, n);
    }
}

proof fn lemma_sum_rank(a: Real, b: Real)
    requires
        a.finite(),
        b.finite(),
    ensures
        !fadd(a, b).nan(),
        fadd(a, b).rank() == round_rank(a.value() + b.value()),
{
    lemma_round_rank(a.value() + b.value());
}

/// What a sum reaches before it is rounded it still reaches after.
pub proof fn law_sum_passes(a: Real, b: Real, x: Real)
    requires
        a.finite(),
        b.finite(),
        x.finite(),
    ensures
        x.value() <= a.value() + b.value() ==> fle(x, fadd(a, b)),
        a.value() + b.value() <= x.value() ==> fle(fadd(a, b), x),
{
    lemma_sum_rank(a, b);
    lemma_value_rank(x);
    if x.value() <= a.value() + b.value() {
        lemma_round_rank_monotone(x.value(), a.value() + b.value());
    }
    if a.value() + b.value() <= x.value() {
        lemma_round_rank_monotone(a.value() + b.value(), x.value());
    }
}

/// A sum of finite numbers is a number.
pub proof fn law_sum_is_number(a: Real, b: Real)
    requires
        a.finite(),
        b.finite(),
    ensures
        !fadd(a, b).nan(),
{
    lemma_sum_rank(a, b);
}

/// Adding what is not negative does not lessen a number.
pub proof fn law_sum_grows(a: Real, b: Real)
    requires
        fle(lit(ZERO), b),
        !fadd(a, b).nan(),
    ensures
        fle(a, fadd(a, b)),
{
    if a.finite() && b.finite() {
        lemma_value_rank(a);
        lemma_value_rank(b);
        lemma_sum_rank(a, b);
        lemma_round_rank_monotone(a.value(), a.value() + b.value());
    }
}

/// Adding no less than the distance to the next number raises a number that is not negative.
pub proof fn law_sum_strictly_grows(a: Real, b: Real)
    requires
        fle(lit(ZERO), a),
        a.finite(),
        b.finite(),
        a.size() + 1 < INF,
        a.value() + b.value() >= mag(a.size() + 1),
    ensures
        flt(a, fadd(a, b)),
{
    lemma_value_rank(a);
    lemma_sum_rank(a, b);
    law_rounding_exact(a.size() + 1);
    lemma_round_rank(mag(a.size() + 1));
    lemma_mag_next(a.size());
    lemma_round_rank_monotone(mag(a.size() + 1), a.value() + b.value());
}

/// Taking away what is not negative does not raise a number.
pub proof fn law_difference_shrinks(a: Real, b: Real)
    requires
        fle(lit(ZERO), b),
        !fsub(a, b).nan(),
    ensures
        fle(fsub(a, b), a),
{
    let c = fneg(b);
    if a.finite() && b.finite() {
        lemma_value_rank(a);
        lemma_value_rank(c);
        lemma_sum_rank(a, c);
        lemma_round_rank_monotone(a.value() + c.value(), a.value());
    }
}

/// An interval about a finite number, as wide as it may be, holds the number.
pub proof fn law_reach(a: Real, b: Real)
    requires
        a.finite(),
        fle(lit(ZERO), b),
    ensures
        fle(fsub(a, b), a),
        fle(a, fadd(a, b)),
{
    if b.finite() {
        lemma_sum_rank(a, b);
        lemma_sum_rank(a, fneg(b));
    }
    law_sum_grows(a, b);
    law_difference_shrinks(a, b);
}

/// Addition of a finite number keeps the order.
pub proof fn law_sum_monotone(a: Real, b: Real, c: Real)
    requires
        fle(a, b),
        c.finite(),
    ensures
        fle(fadd(a, c), fadd(b, c)),
{
    if a.finite() {
        lemma_sum_rank(a, c);
    }
    if b.finite() {
        lemma_sum_rank(b, c);
    }
    if a.finite() && b.finite() {
        lemma_ranks_values(a, b);
        lemma_round_rank_monotone(a.value() + c.value(), b.value() + c.value());
    } else if a.finite() {
        lemma_round_rank(a.value() + c.value());
    } else if b.finite() {
        lemma_round_rank(b.value() + c.value());
    }
}

/// Negation turns the order round.
pub proof fn law_negation(a: Real, b: Real)
    ensures
        fle(a, b) <==> fle(fneg(b), fneg(a)),
        fneg(fneg(a)) == a,
{
}

/// The more is taken away from a finite number, the less is left.
pub proof fn law_difference_antitone(a: Real, b: Real, c: Real)
    requires
        fle(a, b),
        c.finite(),
    ensures
        fle(fsub(c, b), fsub(c, a)),
{
    law_negation(a, b);
    law_sum_monotone(fneg(b), fneg(a), c);
    law_commutes(fneg(b), c);
    law_commutes(fneg(a), c);
}

/// The sign of a factor, a dividend or both terms of a sum is that of the result.
pub proof fn law_signs(a: Real, b: Real)
    ensures
        !fmul(a, b).nan() ==> fmul(fneg(a), b) == fneg(fmul(a, b)),
        !fdiv(a, b).nan() ==> fdiv(fneg(a), b) == fneg(fdiv(a, b)),
        !fadd(a, b).nan() && !fadd(a, b).zero() ==> fadd(fneg(a), fneg(b)) == fneg(fadd(a, b)),
        fadd(a, b).zero() ==> fadd(fneg(a), fneg(b)).zero(),
{
    let x = mag(a.size());
    let y = mag(b.size());
    let q = pow2(ONE_EXPONENT as nat) as int;
    lemma_pow2_pos(ONE_EXPONENT as nat);
    lemma_mag_next(a.size());
    lemma_mag_next(b.size());
    assert(mag(0) == 0);
    if b.size() > 0 {
        lemma_mag_monotone(0, b.size());
    }
    assert(0 <= x * y) by (nonlinear_arith)
        requires
            0 <= x,
            0 <= y,
    ;
    assert(0 <= x * q) by (nonlinear_arith)
        requires
            0 <= x,
            0 <= q,
    ;
    law_nearest_exists(x * y, q);
    if y > 0 {
        law_nearest_exists(x * q, y);
    }
    if a.finite() && b.finite() {
        lemma_round_rank(a.value() + b.value());
        lemma_round_rank(-(a.value() + b.value()));
        assert(fneg(a).value() + fneg(b).value() == -(a.value() + b.value()));
    }
}

/// Multiplication by a positive number keeps the order.
pub proof fn law_scaling_monotone(a: Real, b: Real, c: Real)
    requires
        fle(a, b),
        flt(lit(ZERO), c),
        c.finite(),
    ensures
        fle(fmul(a, c), fmul(b, c)),
{
    let m = fneg(a);
    let n = fneg(b);
    if fle(lit(ZERO), a) {
        law_product_monotone(a, b, c);
    } else {
        law_product_monotone(m, m, c);
        law_signs(m, c);
        if fle(b, lit(ZERO)) {
            law_product_monotone(n, m, c);
            law_signs(n, c);
        } else {
            law_product_monotone(b, b, c);
        }
    }
}

/// Division by a positive number keeps the order.
pub proof fn law_division_monotone(a: Real, b: Real, c: Real)
    requires
        fle(a, b),
        flt(lit(ZERO), c),
        c.finite(),
    ensures
        fle(fdiv(a, c), fdiv(b, c)),
{
    let m = fneg(a);
    let n = fneg(b);
    if fle(lit(ZERO), a) {
        law_quotient_monotone(a, b, c);
    } else {
        law_quotient_monotone(m, m, c);
        law_signs(m, c);
        if fle(b, lit(ZERO)) {
            law_quotient_monotone(n, m, c);
            law_signs(n, c);
        } else {
            law_quotient_monotone(b, b, c);
        }
    }
}

/// Adding zero leaves a number as it is, but for the sign of zero.
pub proof fn law_zero_added(a: Real)
    requires
        !a.nan(),
        !(a.zero() && a.neg()),
    ensures
        fadd(a, lit(ZERO)) == a,
        fadd(lit(ZERO), a) == a,
{
    law_commutes(a, lit(ZERO));
    assert(mag(0) == 0);
    if a.finite() && !a.zero() {
        lemma_mag_monotone(0, a.size());
        law_sum_exact(a, lit(ZERO), a);
    }
}

/// The order of numbers is that of their values.
pub proof fn lemma_ranks_values(a: Real, b: Real)
    requires
        a.finite(),
        b.finite(),
        a.rank() <= b.rank(),
    ensures
        a.value() <= b.value(),
{
    lemma_value_rank(a);
    lemma_value_rank(b);
    if a.size() < b.size() {
        lemma_mag_monotone(a.size(), b.size());
    } else if b.size() < a.size() {
        lemma_mag_monotone(b.size(), a.size());
    }
}

proof fn lemma_mags(a: Real, b: Real)
    requires
        fle(lit(ZERO), a),
        fle(a, b),
    ensures
        0 <= mag(a.size()) <= mag(b.size()),
{
    lemma_mag_next(a.size());
    if a.size() < b.size() {
        lemma_mag_monotone(a.size(), b.size());
    }
}

/// Multiplication by a positive number keeps the order of numbers that are not negative.
pub proof fn law_product_monotone(a: Real, b: Real, c: Real)
    requires
        fle(lit(ZERO), a),
        fle(a, b),
        flt(lit(ZERO), c),
        c.finite(),
    ensures
        fle(lit(ZERO), fmul(a, c)),
        fle(fmul(a, c), fmul(b, c)),
{
    lemma_mags(a, b);
    lemma_mag_next(c.size());
    lemma_mag_next(0);
    let x = mag(a.size());
    let y = mag(b.size());
    let z = mag(c.size());
    let q = pow2(ONE_EXPONENT as nat) as int;
    lemma_pow2_pos(ONE_EXPONENT as nat);
    assert(0 <= x * z <= y * z) by (nonlinear_arith)
        requires
            0 <= x <= y,
            0 <= z,
    ;
    law_nearest_exists(x * z, q);
    law_nearest_exists(y * z, q);
    law_rounding_monotone(x * z, y * z, q);
    lemma_zero_rounds(q);
    assert(x == 0 ==> x * z == 0) by (nonlinear_arith);
    assert(y == 0 ==> y * z == 0) by (nonlinear_arith);
}

pub proof fn lemma_zero_rounds(q: int)
    requires
        0 < q,
    ensures
        rounded(0, q) == 0,
{
    lemma_mag_next(0);
    let m = mag(0) + mag(1);
    assert(0 < m * q) by (nonlinear_arith)
        requires
            0 < m,
            0 < q,
    ;
    assert(rounds(0, q, 0));
    lemma_rounded(0, q, 0);
}

/// Division by a positive number keeps the order of numbers that are not negative.
pub proof fn law_quotient_monotone(a: Real, b: Real, c: Real)
    requires
        fle(lit(ZERO), a),
        fle(a, b),
        flt(lit(ZERO), c),
        c.finite(),
    ensures
        fle(lit(ZERO), fdiv(a, c)),
        fle(fdiv(a, c), fdiv(b, c)),
{
    lemma_mags(a, b);
    lemma_mag_next(0);
    lemma_mag_monotone(0, c.size());
    let x = mag(a.size());
    let y = mag(b.size());
    let z = mag(c.size());
    let q = pow2(ONE_EXPONENT as nat) as int;
    lemma_pow2_pos(ONE_EXPONENT as nat);
    assert(0 <= x * q <= y * q) by (nonlinear_arith)
        requires
            0 <= x <= y,
            0 <= q,
    ;
    law_nearest_exists(x * q, z);
    law_nearest_exists(y * q, z);
    law_rounding_monotone(x * q, y * q, z);
    lemma_zero_rounds(z);
    assert(x == 0 ==> x * q == 0) by (nonlinear_arith);
    assert(y == 0 ==> y * q == 0) by (nonlinear_arith);
}

/// Rounding to an integer keeps the order of numbers that are not negative.
pub proof fn law_integer_monotone(a: Real, b: Real)
    requires
        fle(lit(ZERO), a),
        fle(a, b),
    ensures
        fle(lit(ZERO), finteger(a)),
        fle(finteger(a), finteger(b)),
{
    lemma_mags(a, b);
    let x = mag(a.size());
    let y = mag(b.size());
    let q = one_quanta();
    lemma_pow2_pos(ONE_EXPONENT as nat);
    assert(0 <= (2 * x + q) / (2 * q) <= (2 * y + q) / (2 * q)) by (nonlinear_arith)
        requires
            0 <= x <= y,
            0 < q,
    ;
    let u = whole(x);
    let v = whole(y);
    assert(0 <= u * q <= v * q) by (nonlinear_arith)
        requires
            0 <= u <= v,
            0 < q,
    ;
    law_nearest_exists(u * q, 1);
    law_nearest_exists(v * q, 1);
    law_rounding_monotone(u * q, v * q, 1);
    lemma_zero_rounds(1);
    assert(mag(0) == 0);
    assert(q / (2 * q) == 0) by (nonlinear_arith)
        requires
            0 < q,
    ;
    assert(x == 0 ==> u * q == 0) by (nonlinear_arith)
        requires
            x == 0 ==> u == 0,
    ;
    assert(y == 0 ==> v * q == 0) by (nonlinear_arith)
        requires
            y == 0 ==> v == 0,
    ;
}

/// Rounding does not depend on how a quotient is written.
pub proof fn law_rounding_scaled(p: int, q: int, k: int)
    requires
        0 <= p,
        0 < q,
        0 < k,
    ensures
        rounded(p * k, q * k) == rounded(p, q),
{
    law_nearest_exists(p, q);
    let n = rounded(p, q);
    assert(0 < q * k) by (nonlinear_arith)
        requires
            0 < q,
            0 < k,
    ;
    let low = mag(n - 1) + mag(n);
    let high = mag(n) + mag(n + 1);
    assert(low * (q * k) == (low * q) * k) by (nonlinear_arith);
    assert(high * (q * k) == (high * q) * k) by (nonlinear_arith);
    assert(2 * (p * k) == (2 * p) * k) by (nonlinear_arith);
    let pp = 2 * p;
    let lq = low * q;
    let hq = high * q;
    assert(lq < pp ==> lq * k < pp * k) by (nonlinear_arith)
        requires
            0 < k,
    ;
    assert(pp < hq ==> pp * k < hq * k) by (nonlinear_arith)
        requires
            0 < k,
    ;
    assert(rounds(p * k, q * k, n));
    lemma_rounded(p * k, q * k, n);
}

/// Rounding keeps the order of quotients.
pub proof fn law_rounding_ratio(p1: int, q1: int, p2: int, q2: int)
    requires
        0 <= p1,
        0 <= p2,
        0 < q1,
        0 < q2,
        p1 * q2 <= p2 * q1,
    ensures
        rounded(p1, q1) <= rounded(p2, q2),
{
    law_rounding_scaled(p1, q1, q2);
    law_rounding_scaled(p2, q2, q1);
    assert(q1 * q2 == q2 * q1) by (nonlinear_arith);
    assert(0 <= p1 * q2) by (nonlinear_arith)
        requires
            0 <= p1,
            0 < q2,
    ;
    assert(0 < q1 * q2) by (nonlinear_arith)
        requires
            0 < q1,
            0 < q2,
    ;
    law_rounding_monotone(p1 * q2, p2 * q1, q1 * q2);
}

pub proof fn lemma_one()
    ensures
        mag(ONE as int) == pow2(ONE_EXPONENT as nat),
        lit(ONE).finite(),
        fle(lit(ZERO), lit(ONE)),
{
    let b = BINADE as int;
    lemma_mag(1022, b);
    lemma2_to64_rest();
    assert(pow2(52) == BINADE);
    lemma_pow2_adds(52, 1022);
    assert(1022 * b + b == ONE);
}

/// A share of a number that is not negative is not more than the number.
pub proof fn law_share_at_most(a: Real, s: Real)
    requires
        fle(lit(ZERO), a),
        a.finite(),
        fle(lit(ZERO), s),
        fle(s, lit(ONE)),
    ensures
        fle(lit(ZERO), fmul(a, s)),
        fle(fmul(a, s), a),
{
    lemma_one();
    lemma_mags(s, lit(ONE));
    lemma_mag_next(a.size());
    lemma_pow2_pos(ONE_EXPONENT as nat);
    let q = pow2(ONE_EXPONENT as nat) as int;
    let x = mag(a.size());
    let y = mag(s.size());
    assert(0 <= x * y && (x * y) * 1 <= x * q) by (nonlinear_arith)
        requires
            0 <= x,
            0 <= y <= q,
    ;
    law_nearest_exists(x * y, q);
    law_rounding_ratio(x * y, q, x, 1);
    law_rounding_exact(a.size());
    lemma_zero_rounds(q);
    assert(mag(0) == 0);
    assert(x == 0 ==> x * y == 0) by (nonlinear_arith);
    assert(y == 0 ==> x * y == 0) by (nonlinear_arith);
}

/// The reciprocal of a number from 1 on lies between 0 and 1.
pub proof fn law_reciprocal(d: Real)
    requires
        fle(lit(ONE), d),
    ensures
        fle(lit(ZERO), fdiv(lit(ONE), d)),
        fle(fdiv(lit(ONE), d), lit(ONE)),
{
    lemma_one();
    if d.finite() {
        lemma_mags(lit(ONE), d);
        lemma_pow2_pos(ONE_EXPONENT as nat);
        let q = pow2(ONE_EXPONENT as nat) as int;
        let z = mag(d.size());
        assert(0 <= q * q && (q * q) * 1 <= q * z) by (nonlinear_arith)
            requires
                0 < q <= z,
        ;
        law_nearest_exists(q * q, z);
        law_rounding_ratio(q * q, z, q, 1);
        law_rounding_exact(ONE as int);
    }
}

/// The reciprocal of numbers from 1 on falls.
pub proof fn law_reciprocal_falls(c: Real, d: Real)
    requires
        fle(lit(ONE), c),
        fle(c, d),
    ensures
        fle(fdiv(lit(ONE), d), fdiv(lit(ONE), c)),
{
    law_reciprocal(c);
    law_reciprocal(d);
    lemma_one();
    if d.finite() {
        lemma_mags(lit(ONE), c);
        lemma_mags(c, d);
        lemma_pow2_pos(ONE_EXPONENT as nat);
        let q = pow2(ONE_EXPONENT as nat) as int;
        let y = mag(c.size());
        let z = mag(d.size());
        assert(0 <= q * q && (q * q) * y <= (q * q) * z) by (nonlinear_arith)
            requires
                0 < q,
                y <= z,
        ;
        law_nearest_exists(q * q, y);
        law_nearest_exists(q * q, z);
        law_rounding_ratio(q * q, z, q * q, y);
    }
}

/// The double of a normal number is the next binade's.
pub proof fn lemma_double(n: int)
    requires
        BINADE <= n,
    ensures
        mag(n + BINADE) == 2 * mag(n),
{
    let b = BINADE as int;
    let t = if n < 2 * b {
        0
    } else {
        n / b - 1
    };
    let h = n - t * b;
    if n >= 2 * b {
        lemma_fundamental_div_mod(n, b);
        assert(n / b >= 2) by (nonlinear_arith)
            requires
                n >= 2 * b,
                b == 0x0010_0000_0000_0000,
        ;
        assert(h == n % b + b) by (nonlinear_arith)
            requires
                n == b * (n / b) + n % b,
                h == n - (n / b - 1) * b,
        ;
    }
    lemma_mag(t, h);
    lemma_mag(t + 1, h);
    lemma_pow2_unfold((t + 1) as nat);
    let w = pow2(t as nat) as int;
    assert(h * (2 * w) == 2 * (h * w)) by (nonlinear_arith);
    assert((t + 1) * b + h == n + b) by (nonlinear_arith)
        requires
            h == n - t * b,
    ;
}

/// The range from a number's negative to the number is exact, and so is its end.
pub proof fn law_symmetric_range(x: Real)
    requires
        BINADE <= x.size(),
        x.size() + BINADE < INF,
        !x.neg(),
    ensures
        fsub(x, fneg(x)).finite(),
        fle(lit(ZERO), fsub(x, fneg(x))),
        fadd(fneg(x), fsub(x, fneg(x))) == x,
{
    let n = x.size();
    lemma_double(n);
    lemma_mag_monotone(0, n);
    assert(mag(0) == 0);
    law_rounding_exact(n + BINADE);
    law_rounding_exact(n);
    let d = fsub(x, fneg(x));
    assert(d == signed(false, n + BINADE));
    assert(d.value() == 2 * mag(n));
    assert(fneg(x).value() == -mag(n));
}

/// The range from zero to a positive number is exact, and so is its end.
pub proof fn law_range_from_zero(x: Real)
    requires
        flt(lit(ZERO), x),
        x.finite(),
    ensures
        fsub(x, lit(ZERO)) == x,
        fadd(lit(ZERO), x) == x,
{
    let n = x.size();
    lemma_mag_monotone(0, n);
    assert(mag(0) == 0);
    law_rounding_exact(n);
    assert(fneg(lit(ZERO)).value() == 0);
}

/// Sums and products do not depend on the order of their terms.
pub proof fn law_commutes(a: Real, b: Real)
    ensures
        fadd(a, b) == fadd(b, a),
        fmul(a, b) == fmul(b, a),
{
    assert(mag(a.size()) * mag(b.size()) == mag(b.size()) * mag(a.size())) by (nonlinear_arith);
}

/// A sum that can be held is exact.
pub proof fn law_sum_exact(a: Real, b: Real, c: Real)
    requires
        a.finite(),
        b.finite(),
        c.finite(),
        a.value() + b.value() == c.value(),
        c.value() != 0,
    ensures
        fadd(a, b) == c,
{
    assert(mag(0) == 0);
    lemma_mag_next(c.size());
    law_rounding_exact(c.size());
}

/// A product that can be held is exact.
pub proof fn law_product_exact(a: Real, b: Real, c: Real)
    requires
        a.finite(),
        b.finite(),
        c.finite(),
        mag(a.size()) * mag(b.size()) == mag(c.size()) * pow2(ONE_EXPONENT as nat),
        c.neg() == (a.neg() != b.neg()),
    ensures
        fmul(a, b) == c,
{
    lemma_pow2_pos(ONE_EXPONENT as nat);
    lemma_mag_next(c.size());
    let q = pow2(ONE_EXPONENT as nat) as int;
    law_rounding_scaled(mag(c.size()), 1, q);
    law_rounding_exact(c.size());
    assert(1 * q == q);
}

/// The distance from a magnitude to the next.
pub open spec fn gap(n: int) -> int {
    mag(n + 1) - mag(n)
}

pub proof fn lemma_gap(n: int)
    requires
        0 <= n,
    ensures
        gap(n) == pow2(binade_of(n) as nat),
        0 <= binade_of(n),
{
    let b = BINADE as int;
    let t = binade_of(n);
    let h = n - t * b;
    if n >= 2 * b {
        lemma_fundamental_div_mod(n, b);
        assert(n / b >= 2) by (nonlinear_arith)
            requires
                n >= 2 * b,
                b == 0x0010_0000_0000_0000,
        ;
        assert(h == n % b + b) by (nonlinear_arith)
            requires
                n == b * (n / b) + n % b,
                h == n - (n / b - 1) * b,
        ;
    }
    lemma_mag(t, h);
    lemma_mag(t, h + 1);
    let w = pow2(t as nat) as int;
    assert((h + 1) * w == h * w + w) by (nonlinear_arith);
}

proof fn lemma_gap_grows(m: int, n: int)
    requires
        0 <= m <= n,
    ensures
        0 < gap(m) <= gap(n),
{
    lemma_gap(m);
    lemma_gap(n);
    lemma_pow2_pos(binade_of(m) as nat);
    let b = BINADE as int;
    assert(m / b <= n / b) by (nonlinear_arith)
        requires
            m <= n,
            b == 0x0010_0000_0000_0000,
    ;
    assert(n >= 2 * b ==> n / b >= 2) by (nonlinear_arith)
        requires
            b == 0x0010_0000_0000_0000,
    ;
    if binade_of(m) < binade_of(n) {
        lemma_pow2_strictly_increases(binade_of(m) as nat, binade_of(n) as nat);
    }
}

/// The patterns of 1/4 and 4 about that of 1.
proof fn lemma_quarter_and_four()
    ensures
        4 * mag(ONE - 2 * BINADE) == mag(ONE as int),
        mag(ONE + 2 * BINADE) == 4 * mag(ONE as int),
        lit(FOUR).size() == ONE + 2 * BINADE,
        16 * gap(ONE - 2 * BINADE) == gap(ONE + 2 * BINADE),
{
    let b = BINADE as int;
    let n = ONE - 2 * b;
    lemma_double(n);
    lemma_double(n + b);
    lemma_double(n + 2 * b);
    lemma_double(n + 3 * b);
    lemma_double(n + 1);
    lemma_double(n + 1 + b);
    lemma_double(n + 1 + 2 * b);
    lemma_double(n + 1 + 3 * b);
}

/// Half of a number from 4 on, and its reciprocal.
proof fn lemma_half_and_reciprocal(w: Real)
    requires
        fle(lit(FOUR), w),
        w.finite(),
    ensures
        ({
            let h = fmul(lit(HALF), w);
            let r = fdiv(lit(ONE), w);
            let q = mag(ONE as int);
            &&& h.finite() && 2 * h.value() == mag(w.size())
            &&& r.finite() && !r.neg() && r.size() <= ONE - 2 * BINADE
            &&& 4 * q <= mag(w.size())
            &&& r.size() > 0 ==> (mag(r.size() - 1) + mag(r.size())) * mag(w.size()) <= 2 * (q * q)
            &&& 2 * (q * q) <= (mag(r.size()) + mag(r.size() + 1)) * mag(w.size())
        }),
{
    let b = BINADE as int;
    let n = w.size();
    let q = pow2(ONE_EXPONENT as nat) as int;
    lemma_one();
    lemma_pow2_pos(ONE_EXPONENT as nat);
    lemma_quarter_and_four();
    lemma_mags(lit(FOUR), w);
    let wide = mag(n);
    // the half is exact
    lemma_double(n - b);
    lemma_double(ONE - b);
    let half = mag(n - b);
    let unit = mag(ONE - b);
    assert(lit(HALF).size() == ONE - b);
    assert(unit * wide == half * q) by (nonlinear_arith)
        requires
            2 * unit == q,
            wide == 2 * half,
    ;
    lemma_mag_next(n - b);
    law_rounding_scaled(half, 1, q);
    law_rounding_exact(n - b);
    assert(1 * q == q);
    assert(fmul(lit(HALF), w) == signed(false, n - b));
    // the reciprocal is at most 1/4
    let part = mag(ONE - 2 * b);
    assert(0 <= q * q && (q * q) * 1 <= part * wide) by (nonlinear_arith)
        requires
            0 < q,
            4 * part == q,
            4 * q <= wide,
    ;
    law_nearest_exists(q * q, wide);
    lemma_mag_next(ONE - 2 * b);
    law_rounding_ratio(q * q, wide, part, 1);
    law_rounding_exact(ONE - 2 * b);
}

/// Half of a number and its reciprocal do not fall together as the number grows from 4 on.
pub proof fn law_half_plus_reciprocal(w: Real, v: Real)
    requires
        fle(lit(FOUR), w),
        fle(w, v),
    ensures
        fle(lit(ZERO), fadd(fmul(lit(HALF), w), fdiv(lit(ONE), w))),
        fle(
            fadd(fmul(lit(HALF), w), fdiv(lit(ONE), w)),
            fadd(fmul(lit(HALF), v), fdiv(lit(ONE), v)),
        ),
{
    if w.finite() {
        lemma_half_and_reciprocal(w);
        let h = fmul(lit(HALF), w);
        let r = fdiv(lit(ONE), w);
        lemma_sum_rank(h, r);
        lemma_mag_next(r.size());
        lemma_round_rank(h.value() + r.value());
        law_nearest_exists(h.value() + r.value(), 1);
        if v.finite() && w.size() < v.size() {
            lemma_half_and_reciprocal(v);
            let i = fmul(lit(HALF), v);
            let s = fdiv(lit(ONE), v);
            lemma_sum_rank(i, s);
            lemma_mag_next(s.size());
            let a = mag(w.size());
            let b = mag(v.size());
            let d = b - a;
            let q = mag(ONE as int);
            let x = mag(r.size());
            let y = mag(s.size());
            lemma_mag_next(w.size());
            if w.size() + 1 < v.size() {
                lemma_mag_monotone(w.size() + 1, v.size());
            }
            lemma_quarter_and_four();
            let small = gap(ONE - 2 * BINADE);
            lemma_gap_grows(ONE + 2 * BINADE, w.size());
            assert(16 * small <= d);
            lemma_gap_grows(s.size(), ONE - 2 * BINADE);
            let up = gap(s.size());
            if x > y {
                assert(r.size() > 0) by {
                    assert(mag(0) == 0);
                }
                lemma_gap_grows(r.size() - 1, ONE - 2 * BINADE);
                let down = gap(r.size() - 1);
                let t = ONE - 2 * BINADE;
                lemma_mag_next(t);
                if s.size() < t {
                    lemma_mag_monotone(s.size(), t);
                }
                lemma_double(t);
                lemma_mag_monotone(t + 1, t + BINADE);
                assert(up <= gap(t) <= mag(t));
                assert(2 * y + up <= q);
                assert((2 * x - down) * a <= (2 * y + up) * b);
                assert(2 * (x - y) <= d) by (nonlinear_arith)
                    requires
                        (2 * x - down) * a <= (2 * y + up) * b,
                        b == a + d,
                        0 < d,
                        2 * y + up <= q,
                        4 * q <= a,
                        0 < a,
                        down + up <= d / 2,
                ;
            }
            assert(h.value() + r.value() <= i.value() + s.value());
            lemma_round_rank_monotone(h.value() + r.value(), i.value() + s.value());
        }
    }
}

/// A product of numbers that are not negative grows with both.
pub proof fn law_products_ordered(a: Real, b: Real, c: Real, d: Real)
    requires
        fle(lit(ZERO), a),
        fle(a, b),
        b.finite(),
        fle(lit(ZERO), c),
        fle(c, d),
        d.finite(),
    ensures
        fle(lit(ZERO), fmul(a, c)),
        fle(fmul(a, c), fmul(b, d)),
{
    lemma_mags(a, b);
    lemma_mags(c, d);
    let x = mag(a.size());
    let y = mag(b.size());
    let u = mag(c.size());
    let v = mag(d.size());
    let q = pow2(ONE_EXPONENT as nat) as int;
    lemma_pow2_pos(ONE_EXPONENT as nat);
    assert(0 <= x * u <= y * v) by (nonlinear_arith)
        requires
            0 <= x <= y,
            0 <= u <= v,
    ;
    law_nearest_exists(x * u, q);
    law_nearest_exists(y * v, q);
    law_rounding_monotone(x * u, y * v, q);
    lemma_zero_rounds(q);
    assert(mag(0) == 0);
    assert(x == 0 ==> x * u == 0) by (nonlinear_arith);
    assert(u == 0 ==> x * u == 0) by (nonlinear_arith);
    assert(y == 0 ==> y * v == 0) by (nonlinear_arith);
    assert(v == 0 ==> y * v == 0) by (nonlinear_arith);
}

/// A product with a factor between 0 and `s` lies between the products of the bounds.
pub proof fn law_product_within(c: Real, m: Real, h: Real, t: Real, s: Real)
    requires
        fle(fneg(m), c),
        fle(c, h),
        fle(lit(ZERO), m),
        fle(lit(ZERO), h),
        m.finite(),
        h.finite(),
        fle(lit(ZERO), t),
        fle(t, s),
        s.finite(),
    ensures
        fle(fneg(fmul(m, s)), fmul(c, t)),
        fle(fmul(c, t), fmul(h, s)),
{
    law_products_ordered(m, m, s, s);
    law_products_ordered(h, h, s, s);
    if fle(lit(ZERO), c) {
        law_products_ordered(c, h, t, s);
    } else {
        let n = fneg(c);
        law_products_ordered(n, m, t, s);
        law_signs(n, t);
        law_negation(fmul(n, t), fmul(m, s));
    }
}

/// A sum lies between the sums of the bounds.
pub proof fn law_sum_within(a: Real, low: Real, high: Real, b: Real, least: Real, most: Real)
    requires
        fle(low, a),
        fle(a, high),
        low.finite(),
        high.finite(),
        b.finite(),
        least.finite(),
        most.finite(),
        least.value() <= low.value() + b.value(),
        high.value() + b.value() <= most.value(),
    ensures
        fle(least, fadd(a, b)),
        fle(fadd(a, b), most),
{
    lemma_ranks_values(low, a);
    lemma_ranks_values(a, high);
    lemma_sum_rank(a, b);
    lemma_value_rank(least);
    lemma_value_rank(most);
    lemma_round_rank_monotone(least.value(), a.value() + b.value());
    lemma_round_rank_monotone(a.value() + b.value(), most.value());
}

/// A factor of 1 leaves a finite number as it is, and one of 1/2 halves it.
pub proof fn law_unit_factors(a: Real)
    requires
        a.finite(),
    ensures
        fmul(a, lit(ONE)) == a,
        a.size() >= 2 * BINADE ==> fmul(a, lit(HALF)) == signed(a.neg(), a.size() - BINADE),
{
    let b = BINADE as int;
    let n = a.size();
    let x = mag(n);
    let q = pow2(ONE_EXPONENT as nat) as int;
    lemma_one();
    lemma_pow2_pos(ONE_EXPONENT as nat);
    lemma_mag_next(n);
    law_rounding_scaled(x, 1, q);
    law_rounding_exact(n);
    assert(1 * q == q);
    if n >= 2 * b {
        lemma_double(n - b);
        lemma_double(ONE - b);
        let half = mag(n - b);
        let unit = mag(ONE - b);
        assert(lit(HALF).size() == ONE - b);
        assert(x * unit == half * q) by (nonlinear_arith)
            requires
                2 * unit == q,
                x == 2 * half,
        ;
        lemma_mag_next(n - b);
        law_rounding_scaled(half, 1, q);
        law_rounding_exact(n - b);
    }
}

/// The magnitude of a pattern of 2^-4 or more in units that suit it: multiples of 2^-56.
pub proof fn lemma_units(n: int)
    requires
        0x3fb0_0000_0000_0000 <= n < 0x4040_0000_0000_0000,
    ensures
        mag(n) == (BINADE + n % (BINADE as int)) * pow2(
            (n / (BINADE as int) - 0x3fb) as nat,
        ) * pow2(0x3fa),
        0 < pow2(0x3fa),
{
    let b = BINADE as int;
    let e = n / b;
    assert(0x3fb <= e < 0x404) by (nonlinear_arith)
        requires
            0x3fb0_0000_0000_0000 <= n < 0x4040_0000_0000_0000,
            b == 0x0010_0000_0000_0000,
            e == n / b,
    ;
    lemma_pow2_adds((e - 0x3fb) as nat, 0x3fa);
    lemma_pow2_pos(0x3fa);
    let m = BINADE + n % b;
    let x = pow2((e - 0x3fb) as nat) as int;
    let y = pow2(0x3fa) as int;
    assert(m * (x * y) == m * x * y) by (nonlinear_arith);
}

/// Half of what is rounded rounds to half, but among the least numbers.
proof fn lemma_rounding_halved(p: int, q: int)
    requires
        0 <= p,
        0 < q,
        2 * BINADE < rounded(p, q) < INF,
    ensures
        rounded(p, 2 * q) == rounded(p, q) - BINADE,
{
    let b = BINADE as int;
    let n = rounded(p, q);
    law_nearest_exists(p, q);
    lemma_double(n - b);
    lemma_double(n - b - 1);
    lemma_double(n - b + 1);
    let low = mag(n - b - 1) + mag(n - b);
    let high = mag(n - b) + mag(n - b + 1);
    assert(low * (2 * q) == (2 * low) * q) by (nonlinear_arith);
    assert(high * (2 * q) == (2 * high) * q) by (nonlinear_arith);
    assert(rounds(p, 2 * q, n - b));
    lemma_rounded(p, 2 * q, n - b);
}

/// The products of a number with two halves of another add up to the whole product, without
/// a rounding, but among the least numbers.
pub proof fn law_halves_add_up(a: Real, c: Real)
    requires
        a.finite(),
        a.size() >= 2 * BINADE,
        c.finite(),
        fmul(a, c).finite(),
        fmul(a, c).size() > 2 * BINADE,
    ensures
        ({
            let part = fmul(fmul(a, lit(HALF)), c);
            fadd(part, part) == fmul(a, c) && part == signed(
                fmul(a, c).neg(),
                fmul(a, c).size() - BINADE,
            )
        }),
{
    let b = BINADE as int;
    law_unit_factors(a);
    let h = fmul(a, lit(HALF));
    lemma_double(a.size() - b);
    let x = mag(a.size());
    let y = mag(h.size());
    let z = mag(c.size());
    let q = pow2(ONE_EXPONENT as nat) as int;
    lemma_pow2_pos(ONE_EXPONENT as nat);
    lemma_mag_next(h.size());
    lemma_mag_next(c.size());
    assert(x * z == (y * z) * 2) by (nonlinear_arith)
        requires
            x == 2 * y,
    ;
    assert(0 <= y * z) by (nonlinear_arith)
        requires
            0 <= y,
            0 <= z,
    ;
    law_nearest_exists(x * z, q);
    let n = rounded(x * z, q);
    assert(fmul(a, c).size() == n);
    lemma_rounding_halved(x * z, q);
    law_rounding_scaled(y * z, q, 2);
    assert(q * 2 == 2 * q);
    lemma_double(n - b);
    lemma_mag_monotone(0, n);
    assert(mag(0) == 0);
    let part = fmul(h, c);
    law_sum_exact(part, part, fmul(a, c));
}

/// A sum of numbers that are not negative grows with both.
pub proof fn law_sums_ordered(a: Real, b: Real, c: Real, d: Real)
    requires
        fle(lit(ZERO), a),
        fle(a, b),
        fle(lit(ZERO), c),
        fle(c, d),
    ensures
        fle(lit(ZERO), fadd(a, c)),
        fle(fadd(a, c), fadd(b, d)),
{
    if b.finite() && d.finite() {
        law_sum_is_number(a, c);
        law_sum_grows(a, c);
        law_sum_monotone(a, b, c);
        law_sum_monotone(c, d, b);
        law_commutes(b, c);
        law_commutes(b, d);
    } else if a.finite() && c.finite() {
        law_sum_is_number(a, c);
        law_sum_grows(a, c);
    }
}

} // verus!
