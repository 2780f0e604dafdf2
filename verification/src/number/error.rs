//! How far a rounded result may lie from the exact one.
use vstd::prelude::*;
use crate::number::{fle, flt, fneg, lit, mag, Real, BINADE, INF};
use crate::number::arith::{fadd, fdiv, fmul, fround, fsub, ONE_EXPONENT};
use crate::number::consts::{HUNDRED_TWENTY_EIGHT, MINUS_HUNDRED_TWENTY_EIGHT, MINUS_SIXTY_FOUR,
    SIXTY_FOUR, TRIFLE, ZERO};
use crate::number::convert::{finteger, one_quanta, whole};
use crate::number::order::{gap, law_nearest_exists, law_reach, law_rounding_exact, law_sum_within,
    lemma_gap, lemma_ranks_values};
use crate::number::rounding::{binade_of, lemma_mag, lemma_mag_monotone, lemma_mag_next, rounded};
use vstd::arithmetic::div_mod::lemma_fundamental_div_mod;
use vstd::arithmetic::power2::{lemma2_to64, lemma2_to64_rest, lemma_pow2_adds, lemma_pow2_pos,
    pow2};

verus! {

/// The size of an integer.
pub open spec fn size_of(x: int) -> int {
    if x < 0 {
        -x
    } else {
        x
    }
}

/// Whether `x` lies within one part in 2^53 of `y`.
pub open spec fn is_near(x: int, y: int) -> bool {
    size_of(x - y) * (2 * BINADE) <= size_of(y)
}

/// The distance to the next magnitude is at most one part in 2^52.
proof fn lemma_gap_share(n: int)
    requires
        BINADE <= n,
    ensures
        gap(n) * BINADE <= mag(n),
{
    let b = BINADE as int;
    let t = binade_of(n);
    let h = n - t * b;
    if n >= 2 * b {
        lemma_fundamental_div_mod(n, b);
        assert(n / b >= 2) by (nonlinear_arith)
            requires
                n >= 2 * b,
                b == 0x0010_0000_0000_0000,
        ;
        assert(h == n % b + b) by (nonlinear_arith)
            requires
                n == b * (n / b) + n % b,
                h == n - (n / b - 1) * b,
        ;
    }
    lemma_mag(t, h);
    lemma_gap(n);
    let w = pow2(t as nat) as int;
    lemma_pow2_pos(t as nat);
    assert(w * b <= h * w) by (nonlinear_arith)
        requires
            b <= h,
            0 < w,
    ;
}

/// A quotient that rounds to more than the least numbers lies within one part in 2^53 of
/// what it rounds to.
pub proof fn law_rounding_error(p: int, q: int)
    requires
        0 <= p,
        0 < q,
        BINADE < rounded(p, q) < INF,
    ensures
        is_near(mag(rounded(p, q)) * q, p),
{
    let b = BINADE as int;
    let n = rounded(p, q);
    law_nearest_exists(p, q);
    lemma_gap_share(n);
    lemma_gap_share(n - 1);
    lemma_mag_next(n - 1);
    lemma_mag_next(n);
    let x = mag(n);
    let y = mag(n - 1);
    let up = gap(n);
    let down = gap(n - 1);
    assert(down == x - y);
    if x * q <= p {
        assert((p - x * q) * (2 * b) <= p) by (nonlinear_arith)
            requires
                2 * p <= (x + (x + up)) * q,
                up * b <= x,
                x * q <= p,
                0 < q,
                0 < b,
        ;
    } else {
        assert((x * q - p) * (2 * b) <= p) by (nonlinear_arith)
            requires
                (y + x) * q <= 2 * p,
                x == y + down,
                down * b <= y,
                0 < q,
                0 < b,
                0 <= down,
        ;
    }
}

/// A sum lies within one part in 2^53 of the exact one.
pub proof fn law_sum_error(a: Real, b: Real)
    requires
        a.finite(),
        b.finite(),
        fadd(a, b).finite(),
    ensures
        is_near(fadd(a, b).value(), a.value() + b.value()),
{
    let v = a.value() + b.value();
    let p = size_of(v);
    assert(mag(0) == 0);
    if v != 0 {
        law_nearest_exists(p, 1);
        let n = rounded(p, 1);
        if p < 2 * BINADE {
            assert(mag(p) == p);
            law_rounding_exact(p);
        } else {
            if n <= BINADE {
                lemma_mag_next(n);
                if n + 1 < 2 * BINADE {
                    lemma_mag_monotone(n + 1, 2 * BINADE);
                }
                assert(mag(2 * BINADE - 1) == 2 * BINADE - 1);
            }
            law_rounding_error(p, 1);
        }
        assert(fadd(a, b) == fround(v, 1));
        assert(fadd(a, b).size() == n);
    }
}

/// A difference lies within one part in 2^53 of the exact one.
pub proof fn law_difference_error(a: Real, b: Real)
    requires
        a.finite(),
        b.finite(),
        fsub(a, b).finite(),
    ensures
        is_near(fsub(a, b).value(), a.value() - b.value()),
{
    law_sum_error(a, fneg(b));
}

/// A product that is more than the least numbers lies within one part in 2^53 of the exact
/// one, which is in quanta of quanta.
pub proof fn law_product_error(a: Real, b: Real)
    requires
        a.finite(),
        b.finite(),
        fmul(a, b).finite(),
        fmul(a, b).size() > BINADE,
    ensures
        is_near(fmul(a, b).value() * pow2(ONE_EXPONENT as nat), a.value() * b.value()),
{
    let q = pow2(ONE_EXPONENT as nat) as int;
    lemma_pow2_pos(ONE_EXPONENT as nat);
    lemma_mag_next(a.size());
    lemma_mag_next(b.size());
    let x = mag(a.size());
    let y = mag(b.size());
    let p = x * y;
    assert(0 <= p) by (nonlinear_arith)
        requires
            0 <= x,
            0 <= y,
            p == x * y,
    ;
    law_nearest_exists(p, q);
    let n = rounded(p, q);
    assert(fmul(a, b).size() == n);
    law_rounding_error(p, q);
    let m = mag(n);
    assert((-x) * y == -p && x * (-y) == -p && (-x) * (-y) == p && (-m) * q == -(m * q))
        by (nonlinear_arith)
        requires
            p == x * y,
    ;
}

/// A product of any size lies within one part in 2^53 and one quantum of the exact one.
pub proof fn law_product_absolute(a: Real, b: Real)
    requires
        a.finite(),
        b.finite(),
        fmul(a, b).finite(),
    ensures
        size_of(
            fmul(a, b).value() * pow2(ONE_EXPONENT as nat) - a.value() * b.value(),
        ) * (2 * BINADE) <= size_of(a.value() * b.value()) + pow2(ONE_EXPONENT as nat) * (2
            * BINADE),
{
    let q = pow2(ONE_EXPONENT as nat) as int;
    lemma_pow2_pos(ONE_EXPONENT as nat);
    if fmul(a, b).size() > BINADE {
        law_product_error(a, b);
        assert(0 <= q * (2 * BINADE));
    } else {
        lemma_mag_next(a.size());
        lemma_mag_next(b.size());
        let x = mag(a.size());
        let y = mag(b.size());
        let p = x * y;
        assert(0 <= p) by (nonlinear_arith)
            requires
                0 <= x,
                0 <= y,
                p == x * y,
        ;
        law_nearest_exists(p, q);
        let n = rounded(p, q);
        assert(fmul(a, b).size() == n);
        assert(mag(n) == n && mag(n + 1) == n + 1);
        if n > 0 {
            assert(mag(n - 1) == n - 1);
        }
        assert((n + (n + 1)) * q == 2 * (n * q) + q && (n - 1 + n) * q == 2 * (n * q) - q
            && (-n) * q == -(n * q)) by (nonlinear_arith);
        assert((-x) * y == -p && x * (-y) == -p && (-x) * (-y) == p) by (nonlinear_arith)
            requires
                p == x * y,
        ;
        let d = size_of(fmul(a, b).value() * q - a.value() * b.value());
        assert(d <= q);
        assert(d * (2 * BINADE) <= q * (2 * BINADE)) by (nonlinear_arith)
            requires
                d <= q,
        ;
    }
}

/// The magnitude of a power of two, in quanta.
pub proof fn law_power_of_two(n: int, k: int)
    requires
        -1022 <= k <= 1023,
        n == (k + 1023) * BINADE,
    ensures
        mag(n) == pow2((k + 1074) as nat),
        0 < mag(n),
{
    let b = BINADE as int;
    let t = k + 1022;
    assert(n == t * b + b) by (nonlinear_arith)
        requires
            n == (k + 1023) * b,
            t == k + 1022,
    ;
    lemma_mag(t, b);
    lemma2_to64_rest();
    assert(pow2(52) == BINADE);
    lemma_pow2_adds(52, t as nat);
    lemma_pow2_pos((k + 1074) as nat);
}

/// What is added to a number and taken from it leaves the number in the middle, but for the
/// two roundings.
pub proof fn law_reach_is_symmetric(a: Real, r: Real)
    requires
        a.finite(),
        r.finite(),
        fadd(a, r).finite(),
        fsub(a, r).finite(),
    ensures
        size_of((fadd(a, r).value() - a.value()) - (a.value() - fsub(a, r).value())) * (2 * BINADE)
            <= size_of(a.value() + r.value()) + size_of(a.value() - r.value()),
{
    law_sum_error(a, r);
    law_difference_error(a, r);
    let x = fadd(a, r).value() - (a.value() + r.value());
    let y = fsub(a, r).value() - (a.value() - r.value());
    assert((fadd(a, r).value() - a.value()) - (a.value() - fsub(a, r).value()) == x + y);
    assert(size_of(x + y) <= size_of(x) + size_of(y));
    let p = size_of(x);
    let q = size_of(y);
    let s = size_of(x + y);
    assert(s * (2 * BINADE) <= p * (2 * BINADE) + q * (2 * BINADE)) by (nonlinear_arith)
        requires
            s <= p + q,
    ;
}

/// A reach of 2^-44 or more takes a number of ordinary size to either side by 2^-50 or more.
pub proof fn law_reach_is_felt(a: Real, r: Real)
    requires
        fle(lit(MINUS_SIXTY_FOUR), a),
        fle(a, lit(SIXTY_FOUR)),
        fle(lit(TRIFLE), r),
        fle(r, lit(SIXTY_FOUR)),
    ensures
        fle(lit(MINUS_HUNDRED_TWENTY_EIGHT), fsub(a, r)),
        fle(fadd(a, r), lit(HUNDRED_TWENTY_EIGHT)),
        a.value() - fsub(a, r).value() >= pow2(1024),
        fadd(a, r).value() - a.value() >= pow2(1024),
        fle(fsub(a, r), a),
        fle(a, fadd(a, r)),
{
    let w = pow2(1021) as int;
    law_power_of_two(SIXTY_FOUR as int, 6);
    law_power_of_two(HUNDRED_TWENTY_EIGHT as int, 7);
    law_power_of_two(TRIFLE as int, -44);
    lemma2_to64();
    lemma2_to64_rest();
    lemma_pow2_pos(1021);
    lemma_pow2_adds(59, 1021);
    lemma_pow2_adds(60, 1021);
    lemma_pow2_adds(9, 1021);
    lemma_pow2_adds(3, 1021);
    lemma_ranks_values(lit(MINUS_SIXTY_FOUR), a);
    lemma_ranks_values(a, lit(SIXTY_FOUR));
    lemma_ranks_values(lit(TRIFLE), r);
    lemma_ranks_values(r, lit(SIXTY_FOUR));
    assert(mag(0) == 0);
    law_sum_within(
        a,
        lit(MINUS_SIXTY_FOUR),
        lit(SIXTY_FOUR),
        r,
        lit(MINUS_SIXTY_FOUR),
        lit(HUNDRED_TWENTY_EIGHT),
    );
    law_sum_within(
        a,
        lit(MINUS_SIXTY_FOUR),
        lit(SIXTY_FOUR),
        fneg(r),
        lit(MINUS_HUNDRED_TWENTY_EIGHT),
        lit(SIXTY_FOUR),
    );
    law_sum_error(a, r);
    law_difference_error(a, r);
    law_reach(a, r);
}

/// A magnitude of whole quanta rounds to within one part in 2^53.
pub proof fn law_rounded_near(v: int)
    requires
        0 <= v,
        rounded(v, 1) < INF,
    ensures
        0 <= rounded(v, 1),
        size_of(mag(rounded(v, 1)) - v) * (2 * BINADE) <= v,
{
    law_nearest_exists(v, 1);
    let n = rounded(v, 1);
    assert(mag(0) == 0);
    if v < 2 * BINADE {
        assert(mag(v) == v);
        law_rounding_exact(v);
    } else {
        if n <= BINADE {
            lemma_mag_next(n);
            if n + 1 < 2 * BINADE {
                lemma_mag_monotone(n + 1, 2 * BINADE);
            }
            assert(mag(2 * BINADE - 1) == 2 * BINADE - 1);
        }
        law_rounding_error(v, 1);
    }
}

/// A quotient of any size lies within one part in 2^53 and one quantum of the exact one.
pub proof fn law_quotient_absolute(a: Real, b: Real)
    requires
        a.finite(),
        flt(lit(ZERO), b),
        b.finite(),
        fdiv(a, b).finite(),
    ensures
        size_of(
            fdiv(a, b).value() * b.value() - a.value() * pow2(ONE_EXPONENT as nat),
        ) * (2 * BINADE) <= size_of(a.value()) * pow2(ONE_EXPONENT as nat) + b.value() * (2
            * BINADE),
{
    let q = pow2(ONE_EXPONENT as nat) as int;
    lemma_pow2_pos(ONE_EXPONENT as nat);
    assert(mag(0) == 0);
    lemma_mag_monotone(0, b.size());
    lemma_mag_next(a.size());
    let x = mag(a.size());
    let y = mag(b.size());
    let p = x * q;
    assert(0 <= p) by (nonlinear_arith)
        requires
            0 <= x,
            0 < q,
            p == x * q,
    ;
    law_nearest_exists(p, y);
    let n = rounded(p, y);
    let m = mag(n);
    assert(fdiv(a, b).size() == n);
    assert((-m) * y == -(m * y) && (-x) * q == -p) by (nonlinear_arith)
        requires
            p == x * q,
    ;
    assert(0 <= y * (2 * BINADE)) by (nonlinear_arith)
        requires
            0 < y,
    ;
    if n > BINADE {
        law_rounding_error(p, y);
    } else {
        assert(mag(n) == n && mag(n + 1) == n + 1);
        if n > 0 {
            assert(mag(n - 1) == n - 1);
        }
        assert((n + (n + 1)) * y == 2 * (n * y) + y && (n - 1 + n) * y == 2 * (n * y) - y)
            by (nonlinear_arith);
        let d = size_of(m * y - p);
        assert(d <= y);
        assert(d * (2 * BINADE) <= y * (2 * BINADE)) by (nonlinear_arith)
            requires
                d <= y,
        ;
    }
}

/// A number rounded to an integer lies within a half of it, but for one rounding.
pub proof fn law_integer_near(a: Real)
    requires
        a.finite(),
        finteger(a).finite(),
    ensures
        2 * size_of(finteger(a).value() - a.value()) * (2 * BINADE) <= one_quanta() * (2 * BINADE) + 2
            * size_of(a.value()) + one_quanta(),
{
    let q = one_quanta();
    lemma_pow2_pos(ONE_EXPONENT as nat);
    lemma_mag_next(a.size());
    assert(mag(0) == 0);
    if a.size() > 0 {
        lemma_mag_monotone(0, a.size());
    }
    let x = mag(a.size());
    let w = whole(x);
    lemma_fundamental_div_mod(2 * x + q, 2 * q);
    let r = (2 * x + q) % (2 * q);
    assert(0 <= r < 2 * q);
    let v = w * q;
    assert(2 * q * w == 2 * v) by (nonlinear_arith)
        requires
            v == w * q,
    ;
    assert(0 <= w) by (nonlinear_arith)
        requires
            2 * x + q == 2 * q * w + r,
            0 <= x,
            0 < q,
            r < 2 * q,
    ;
    assert(0 <= v) by (nonlinear_arith)
        requires
            v == w * q,
            0 <= w,
            0 < q,
    ;
    law_nearest_exists(v, 1);
    law_rounded_near(v);
}

} // verus!
