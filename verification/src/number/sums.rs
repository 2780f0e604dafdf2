//! How far a rounded sum of products may lie from the exact one.
use vstd::prelude::*;
use super::{fle, flt, lit, mag, Real, BINADE};
use super::arith::{fadd, fmul, ONE_EXPONENT};
use super::consts::ZERO;
use super::error::{law_product_error, law_sum_error, size_of};
use super::order::{law_product_monotone, law_sum_grows, law_sums_ordered, lemma_ranks_values};
use super::rounding::lemma_mag_monotone;
use vstd::arithmetic::power2::{lemma_pow2_pos, pow2};

verus! {

/// The sum of the products, each product and each sum rounded.
pub open spec fn rounded_sum(terms: Seq<(Real, Real)>) -> Real
    decreases terms.len(),
{
    if terms.len() == 0 {
        lit(ZERO)
    } else {
        fadd(rounded_sum(terms.drop_last()), fmul(terms.last().0, terms.last().1))
    }
}

pub open spec fn add_product() -> spec_fn(int, (Real, Real)) -> int {
    |s: int, t: (Real, Real)| s + t.0.value() * t.1.value()
}

/// The exact sum of the products, in quanta of quanta.
pub open spec fn exact_sum(terms: Seq<(Real, Real)>) -> int {
    terms.fold_left(0, add_product())
}

/// Whether every factor is positive and every product more than the least numbers, and the
/// sum does not overflow.
pub open spec fn is_ordinary(terms: Seq<(Real, Real)>) -> bool {
    &&& forall|i: int| 0 <= i < terms.len() ==> is_ordinary_term(#[trigger] terms[i])
    &&& rounded_sum(terms).finite()
}

pub open spec fn is_ordinary_term(t: (Real, Real)) -> bool {
    &&& flt(lit(ZERO), t.0) && t.0.finite()
    &&& flt(lit(ZERO), t.1) && t.1.finite()
    &&& fmul(t.0, t.1).finite() && fmul(t.0, t.1).size() > BINADE
}

pub proof fn lemma_ordinary_term(t: (Real, Real))
    requires
        is_ordinary_term(t),
    ensures
        fle(lit(ZERO), fmul(t.0, t.1)),
        0 < t.0.value(),
        0 < t.1.value(),
        0 <= fmul(t.0, t.1).value(),
        0 < t.0.value() * t.1.value(),
        size_of(
            fmul(t.0, t.1).value() * pow2(ONE_EXPONENT as nat) - t.0.value() * t.1.value(),
        ) * (2 * BINADE) <= t.0.value() * t.1.value(),
{
    assert(mag(0) == 0);
    lemma_mag_monotone(0, t.0.size());
    lemma_mag_monotone(0, t.1.size());
    law_product_monotone(t.0, t.0, t.1);
    lemma_ranks_values(lit(ZERO), fmul(t.0, t.1));
    law_product_error(t.0, t.1);
    let x = t.0.value();
    let y = t.1.value();
    assert(0 < x * y) by (nonlinear_arith)
        requires
            0 < x,
            0 < y,
    ;
}

/// The sums on the way are ordinary too.
pub proof fn lemma_ordinary_prefix(terms: Seq<(Real, Real)>)
    requires
        is_ordinary(terms),
    ensures
        fle(lit(ZERO), rounded_sum(terms)),
        terms.len() > 0 ==> is_ordinary(terms.drop_last()) && fle(
            lit(ZERO),
            rounded_sum(terms.drop_last()),
        ),
{
    lemma_not_negative(terms);
    if terms.len() > 0 {
        let front = terms.drop_last();
        let t = terms.last();
        assert forall|i: int| 0 <= i < front.len() implies is_ordinary_term(#[trigger] front[i]) by {
            assert(front[i] == terms[i]);
        }
        lemma_not_negative(front);
        assert(t == terms[terms.len() - 1]);
        lemma_ordinary_term(t);
        law_sum_grows(rounded_sum(front), fmul(t.0, t.1));
    }
}

proof fn lemma_not_negative(terms: Seq<(Real, Real)>)
    requires
        forall|i: int| 0 <= i < terms.len() ==> is_ordinary_term(#[trigger] terms[i]),
    ensures
        fle(lit(ZERO), rounded_sum(terms)),
    decreases terms.len(),
{
    if terms.len() > 0 {
        let front = terms.drop_last();
        let t = terms.last();
        assert forall|i: int| 0 <= i < front.len() implies is_ordinary_term(#[trigger] front[i]) by {
            assert(front[i] == terms[i]);
        }
        lemma_not_negative(front);
        assert(t == terms[terms.len() - 1]);
        lemma_ordinary_term(t);
        let s = rounded_sum(front);
        let f = fmul(t.0, t.1);
        law_sums_ordered(s, s, f, f);
    }
}

/// What one more rounded product and one more rounded sum add to the error.
proof fn lemma_step(d: int, t: int, r: int, e: int, x: int, c: int, q: int, u: int)
    requires
        0 < q,
        0 < u,
        1 <= c <= u,
        0 <= e,
        0 < x,
        0 <= d,
        0 <= t,
        size_of(d * q - e) * u <= c * e,
        size_of(t * q - x) * u <= x,
        size_of(r - (d + t)) * u <= d + t,
    ensures
        size_of(r * q - (e + x)) * u <= (c + 2) * (e + x),
{
    let a = d * q - e;
    let b = t * q - x;
    let g = r - (d + t);
    let ga = size_of(a);
    let gb = size_of(b);
    let gg = size_of(g);
    let gq = g * q;
    let w = size_of(gq);
    assert(r * q - (e + x) == a + b + gq) by (nonlinear_arith)
        requires
            a == d * q - e,
            b == t * q - x,
            g == r - (d + t),
            gq == g * q,
    ;
    assert(w == gg * q) by (nonlinear_arith)
        requires
            gq == g * q,
            w == (if gq < 0 { -gq } else { gq }),
            gg == (if g < 0 { -g } else { g }),
            0 < q,
    ;
    // the rounding of the sum, in quanta of quanta
    assert(w * u <= d * q + t * q) by (nonlinear_arith)
        requires
            w == gg * q,
            gg * u <= d + t,
            0 < q,
    ;
    // the two parts are off by at most c parts together
    assert(ga * u + gb * u <= c * (e + x)) by (nonlinear_arith)
        requires
            ga * u <= c * e,
            gb * u <= x,
            1 <= c,
            0 < x,
    ;
    assert(ga + gb <= e + x) by (nonlinear_arith)
        requires
            ga * u + gb * u <= c * (e + x),
            c <= u,
            0 < u,
            0 <= e,
            0 < x,
    ;
    let s = size_of(r * q - (e + x));
    assert(s <= ga + gb + w);
    assert(d * q + t * q == e + x + a + b);
    assert(s * u <= (c + 2) * (e + x)) by (nonlinear_arith)
        requires
            s <= ga + gb + w,
            ga * u + gb * u <= c * (e + x),
            w * u <= e + x + a + b,
            a + b <= ga + gb,
            ga + gb <= e + x,
            0 < u,
    ;
}

/// A rounded sum of `n` products lies within `2n + 1` parts in 2^53 of the exact one.
pub proof fn law_sum_of_products(terms: Seq<(Real, Real)>)
    requires
        is_ordinary(terms),
        terms.len() < BINADE,
    ensures
        0 <= exact_sum(terms),
        size_of(rounded_sum(terms).value() * pow2(ONE_EXPONENT as nat) - exact_sum(terms)) * (2
            * BINADE) <= (2 * terms.len() + 1) * exact_sum(terms),
    decreases terms.len(),
{
    let q = pow2(ONE_EXPONENT as nat) as int;
    lemma_pow2_pos(ONE_EXPONENT as nat);
    assert(mag(0) == 0);
    if terms.len() == 0 {
        assert(0 * q == 0);
    } else {
        let front = terms.drop_last();
        let t = terms.last();
        assert(t == terms[terms.len() - 1]);
        lemma_ordinary_prefix(terms);
        law_sum_of_products(front);
        lemma_ordinary_term(t);
        let s = rounded_sum(front);
        let f = fmul(t.0, t.1);
        lemma_ranks_values(lit(ZERO), s);
        law_sum_error(s, f);
        let n = front.len() as int;
        let e = exact_sum(front);
        let x = t.0.value() * t.1.value();
        assert(exact_sum(terms) == e + x);
        lemma_step(s.value(), f.value(), fadd(s, f).value(), e, x, 2 * n + 1, q, 2 * BINADE);
    }
}

/// Two rounded numbers agree as far as the exact ones do.
pub proof fn lemma_agree(a: int, b: int, g: int, f: int, m: int, n: int, k: int, q: int, u: int)
    requires
        0 < q,
        0 <= m,
        0 <= n,
        0 <= k,
        0 <= g,
        0 <= f,
        m * k <= u,
        n * (m + n + k + 2) <= u,
        n < u,
        size_of(a * q - g) * u <= m * g,
        size_of(b * q - f) * u <= n * f,
        size_of(g - f) * u <= k * f,
    ensures
        size_of(a - b) * u <= (m + n + k + 2) * b,
{
    let x = a * q - g;
    let y = b * q - f;
    let z = g - f;
    let gx = size_of(x);
    let gy = size_of(y);
    let gz = size_of(z);
    // the first number's error, measured by the second
    assert(m * g <= (m + 1) * f) by {
        let v = m * z;
        let w = size_of(v);
        assert(m * g == m * f + v) by (nonlinear_arith)
            requires
                v == m * z,
                z == g - f,
        ;
        assert(w * u <= u * f) by (nonlinear_arith)
            requires
                v == m * z,
                w == (if v < 0 { -v } else { v }),
                gz == (if z < 0 { -z } else { z }),
                gz * u <= k * f,
                m * k <= u,
                0 <= m,
                0 <= f,
        {
            assert(w == m * gz) by (nonlinear_arith)
                requires
                    v == m * z,
                    w == (if v < 0 { -v } else { v }),
                    gz == (if z < 0 { -z } else { z }),
                    0 <= m,
            ;
            assert(m * gz * u <= m * (k * f)) by (nonlinear_arith)
                requires
                    gz * u <= k * f,
                    0 <= m,
            ;
            assert(m * (k * f) <= u * f) by (nonlinear_arith)
                requires
                    m * k <= u,
                    0 <= f,
            ;
        }
        assert(w <= f) by (nonlinear_arith)
            requires
                w * u <= u * f,
                0 < u,
        ;
        assert((m + 1) * f == m * f + f) by (nonlinear_arith);
    }
    let d = a - b;
    let gd = size_of(d);
    let dq = d * q;
    let w = size_of(dq);
    assert(dq == x - y + z) by (nonlinear_arith)
        requires
            dq == d * q,
            d == a - b,
            x == a * q - g,
            y == b * q - f,
            z == g - f,
    ;
    assert(w == gd * q) by (nonlinear_arith)
        requires
            dq == d * q,
            w == (if dq < 0 { -dq } else { dq }),
            gd == (if d < 0 { -d } else { d }),
            0 < q,
    ;
    let big = m + n + k + 1;
    assert(w * u <= big * f) by (nonlinear_arith)
        requires
            w <= gx + gy + gz,
            gx * u <= m * g,
            m * g <= (m + 1) * f,
            gy * u <= n * f,
            gz * u <= k * f,
            big == m + n + k + 1,
            n < u,
            0 <= n,
    ;
    // the exact number, measured by the rounded one
    let bq = b * q;
    assert(f * (u - n) <= bq * u) by (nonlinear_arith)
        requires
            y == bq - f,
            -y <= gy,
            gy * u <= n * f,
            0 < u,
    ;
    assert(0 <= bq) by (nonlinear_arith)
        requires
            f * (u - n) <= bq * u,
            0 <= f,
            n < u,
            0 < u,
    ;
    assert(big * f <= (big + 1) * bq) by {
        assert(big * f * (u - n) <= big * (bq * u)) by (nonlinear_arith)
            requires
                f * (u - n) <= bq * u,
                0 <= big,
        ;
        assert(big * (bq * u) <= (big + 1) * bq * (u - n)) by (nonlinear_arith)
            requires
                n * (big + 1) <= u,
                0 <= bq,
        ;
        let l = big * f;
        let r = (big + 1) * bq;
        assert(l <= r) by (nonlinear_arith)
            requires
                l * (u - n) <= r * (u - n),
                n < u,
        ;
    }
    let top = big + 1;
    assert(gd * u <= top * b) by (nonlinear_arith)
        requires
            w == gd * q,
            w * u <= top * bq,
            bq == b * q,
            0 < q,
    {
        assert((gd * u) * q <= (top * b) * q) by (nonlinear_arith)
            requires
                w == gd * q,
                w * u <= top * bq,
                bq == b * q,
        ;
        let l = gd * u;
        let r = top * b;
        assert(l <= r) by (nonlinear_arith)
            requires
                l * q <= r * q,
                0 < q,
        ;
    }
}

/// The most terms of which the laws on two sums speak.
pub const MOST_TERMS: u64 = 0x10_0000;

/// Two rounded sums of `n` and `m` products that are equal when exact agree within
/// `2 (n + m + 2)` parts in 2^53.
pub proof fn law_equal_sums(a: Seq<(Real, Real)>, b: Seq<(Real, Real)>)
    requires
        is_ordinary(a),
        is_ordinary(b),
        a.len() <= MOST_TERMS,
        b.len() <= MOST_TERMS,
        exact_sum(a) == exact_sum(b),
    ensures
        size_of(rounded_sum(a).value() - rounded_sum(b).value()) * (2 * BINADE) <= 2 * (a.len()
            + b.len() + 2) * rounded_sum(b).value(),
{
    lemma_pow2_pos(ONE_EXPONENT as nat);
    law_sum_of_products(a);
    law_sum_of_products(b);
    let m = 2 * a.len() as int + 1;
    let n = 2 * b.len() as int + 1;
    assert(n * (m + n + 2) <= 2 * BINADE) by (nonlinear_arith)
        requires
            0 <= m <= 0x20_0001,
            0 <= n <= 0x20_0001,
    ;
    lemma_agree(
        rounded_sum(a).value(),
        rounded_sum(b).value(),
        exact_sum(a),
        exact_sum(b),
        m,
        n,
        0,
        pow2(ONE_EXPONENT as nat) as int,
        2 * BINADE,
    );
    assert(m + n + 2 == 2 * (a.len() + b.len() + 2));
}

/// Whether each of the first sum's terms is to the second's as `den` to `num`, within `parts`
/// parts in 2^53: the first factors are the same.
pub open spec fn is_scaled(
    a: Seq<(Real, Real)>,
    b: Seq<(Real, Real)>,
    num: int,
    den: int,
    parts: int,
) -> bool {
    &&& a.len() == b.len()
    &&& forall|i: int|
        0 <= i < a.len() ==> {
            &&& (#[trigger] a[i]).0 == (#[trigger] b[i]).0
            &&& size_of(a[i].1.value() * num - b[i].1.value() * den) * (2 * BINADE) <= parts * (
            b[i].1.value() * den)
        }
}

proof fn lemma_scaled(
    a: Seq<(Real, Real)>,
    b: Seq<(Real, Real)>,
    num: int,
    den: int,
    parts: int,
)
    requires
        is_scaled(a, b, num, den, parts),
        forall|i: int| 0 <= i < a.len() ==> 0 < (#[trigger] a[i]).0.value(),
    ensures
        size_of(exact_sum(a) * num - exact_sum(b) * den) * (2 * BINADE) <= parts * (exact_sum(b)
            * den),
    decreases a.len(),
{
    if a.len() == 0 {
        assert(exact_sum(a) == 0 && exact_sum(b) == 0);
        assert(0 * num == 0 && 0 * den == 0 && parts * 0 == 0);
    } else {
        let n = a.len() - 1;
        let c = a.drop_last();
        let d = b.drop_last();
        assert forall|i: int| 0 <= i < n implies #[trigger] c[i] == a[i] && #[trigger] d[i]
            == b[i] by {}
        lemma_scaled(c, d, num, den, parts);
        let h = a[n].0.value();
        let x = a[n].1.value();
        let y = b[n].1.value();
        let e = exact_sum(c);
        let f = exact_sum(d);
        assert(a[n] == a.last() && b[n] == b.last());
        assert(exact_sum(a) == e + h * x);
        assert(exact_sum(b) == f + h * y);
        let u = 2 * BINADE;
        let v = x * num - y * den;
        let gv = size_of(v);
        let w = e * num - f * den;
        let gw = size_of(w);
        let s = (e + h * x) * num - (f + h * y) * den;
        let gs = size_of(s);
        assert(s == w + h * v) by (nonlinear_arith)
            requires
                s == (e + h * x) * num - (f + h * y) * den,
                w == e * num - f * den,
                v == x * num - y * den,
        ;
        let hv = h * v;
        let gh = size_of(hv);
        assert(gh == h * gv) by (nonlinear_arith)
            requires
                hv == h * v,
                gh == (if hv < 0 { -hv } else { hv }),
                gv == (if v < 0 { -v } else { v }),
                0 < h,
        ;
        assert(gs <= gw + gh);
        let k = y * den;
        assert(gh * u <= parts * (h * k)) by (nonlinear_arith)
            requires
                gh == h * gv,
                gv * u <= parts * k,
                0 < h,
        ;
        assert((f + h * y) * den == f * den + h * k) by (nonlinear_arith)
            requires
                k == y * den,
        ;
        let fd = f * den;
        let hk = h * k;
        assert(gs * u <= parts * (fd + hk)) by (nonlinear_arith)
            requires
                gs <= gw + gh,
                gw * u <= parts * fd,
                gh * u <= parts * hk,
                0 < u,
        ;
        assert(exact_sum(a) * num - exact_sum(b) * den == s);
        assert(exact_sum(b) * den == fd + hk);
    }
}

/// Two rounded sums of `n` products whose terms are to each other as `den` to `num`, within
/// `parts` parts in 2^53, are so themselves, within `4 (n + 1)` parts more.
pub proof fn law_scaled_sums(
    a: Seq<(Real, Real)>,
    b: Seq<(Real, Real)>,
    num: int,
    den: int,
    parts: int,
)
    requires
        is_ordinary(a),
        is_ordinary(b),
        a.len() <= MOST_TERMS,
        is_scaled(a, b, num, den, parts),
        0 < num,
        0 < den,
        0 <= parts <= MOST_TERMS,
    ensures
        size_of(rounded_sum(a).value() * num - rounded_sum(b).value() * den) * (2 * BINADE) <= (4
            * (a.len() + 1) + parts) * (rounded_sum(b).value() * den),
{
    let q = pow2(ONE_EXPONENT as nat) as int;
    let u = 2 * BINADE;
    lemma_pow2_pos(ONE_EXPONENT as nat);
    law_sum_of_products(a);
    law_sum_of_products(b);
    assert forall|i: int| 0 <= i < a.len() implies 0 < (#[trigger] a[i]).0.value() by {
        lemma_ordinary_term(a[i]);
    }
    lemma_scaled(a, b, num, den, parts);
    let m = 2 * a.len() as int + 1;
    let s = rounded_sum(a).value();
    let t = rounded_sum(b).value();
    let e = exact_sum(a);
    let f = exact_sum(b);
    lemma_multiple(s, e, m, num, q, u);
    lemma_multiple(t, f, m, den, q, u);
    assert(0 <= e * num && 0 <= f * den) by (nonlinear_arith)
        requires
            0 <= e,
            0 <= f,
            0 < num,
            0 < den,
    ;
    assert(m * (m + m + parts + 2) <= u && m * parts <= u) by (nonlinear_arith)
        requires
            0 <= m <= 0x20_0001,
            0 <= parts <= 0x10_0000,
            u == 0x20_0000_0000_0000,
    ;
    lemma_agree(s * num, t * den, e * num, f * den, m, m, parts, q, u);
    assert(m + m + parts + 2 == 4 * (a.len() + 1) + parts);
}

pub proof fn lemma_multiple(s: int, e: int, m: int, k: int, q: int, u: int)
    requires
        0 < k,
        size_of(s * q - e) * u <= m * e,
    ensures
        size_of(s * k * q - e * k) * u <= m * (e * k),
{
    let x = s * q - e;
    let gx = size_of(x);
    let y = s * k * q - e * k;
    let gy = size_of(y);
    assert(y == x * k) by (nonlinear_arith)
        requires
            x == s * q - e,
            y == s * k * q - e * k,
    ;
    assert(gy == gx * k) by (nonlinear_arith)
        requires
            y == x * k,
            gy == (if y < 0 { -y } else { y }),
            gx == (if x < 0 { -x } else { x }),
            0 < k,
    ;
    assert(gy * u <= m * (e * k)) by (nonlinear_arith)
        requires
            gy == gx * k,
            gx * u <= m * e,
            0 < k,
    ;
}

/// The exact sum of two lists of terms after each other.
pub proof fn law_sum_of_both(a: Seq<(Real, Real)>, b: Seq<(Real, Real)>)
    ensures
        exact_sum(a + b) == exact_sum(a) + exact_sum(b),
    decreases b.len(),
{
    if b.len() == 0 {
        assert(a + b =~= a);
    } else {
        law_sum_of_both(a, b.drop_last());
        assert((a + b).drop_last() =~= a + b.drop_last());
        assert((a + b).last() == b.last());
    }
}

/// The terms with the one at `i` cut in two: its first factor is shared out.
pub open spec fn cut_at(terms: Seq<(Real, Real)>, i: int, first: Real, second: Real) -> Seq<
    (Real, Real),
> {
    terms.take(i) + seq![(first, terms[i].1), (second, terms[i].1)] + terms.skip(i + 1)
}

/// A term that is cut in two leaves the exact sum as it was.
pub proof fn law_cut_sum(terms: Seq<(Real, Real)>, i: int, first: Real, second: Real)
    requires
        0 <= i < terms.len(),
        first.value() + second.value() == terms[i].0.value(),
    ensures
        exact_sum(cut_at(terms, i, first, second)) == exact_sum(terms),
{
    let x = terms[i].1;
    let one = seq![terms[i]];
    let two = seq![(first, x), (second, x)];
    law_sum_of_both(terms.take(i), two);
    law_sum_of_both(terms.take(i) + two, terms.skip(i + 1));
    law_sum_of_both(terms.take(i), one);
    law_sum_of_both(terms.take(i) + one, terms.skip(i + 1));
    assert(terms.take(i) + one + terms.skip(i + 1) =~= terms);
    let f = first.value();
    let g = second.value();
    let h = terms[i].0.value();
    let v = x.value();
    assert(h * v == f * v + g * v) by (nonlinear_arith)
        requires
            h == f + g,
    ;
    reveal_with_fuel(Seq::fold_left, 3);
    assert(two.drop_last() =~= seq![(first, x)]);
    assert(two.drop_last().drop_last() =~= Seq::empty());
    assert(one.drop_last() =~= Seq::empty());
}

} // verus!
