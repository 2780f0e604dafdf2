//! The damage of a variable load is the sum of the shares of life that its segments take.
use vstd::prelude::*;
use crate::fit::ResidualRow;
use crate::fit::problem::{damage_of, row_is, score_of, Plan, LN_10, TINY};
use crate::host::{answer, is_faithful, of_ordinary_size, takes_roots, Call, Print};
use crate::number::{feq, fle, flt, fmax, fneg, lit, mag, Real, BINADE};
use crate::number::arith::{fadd, fdiv, fmul, fsub, ONE_EXPONENT};
use crate::number::consts::{ONE, ZERO};
use crate::number::convert::one_quanta;
use crate::number::error::{law_sum_error, size_of};
use crate::number::order::{law_commutes, law_negation, law_quotient_monotone, law_signs,
    law_sum_grows, law_sum_is_number, law_sum_monotone, law_sums_ordered, law_zero_added,
    lemma_one, lemma_ranks_values};
use crate::number::shape::{law_difference_not_negative, law_divisor_lowers, law_nothing_left,
    lemma_square_of_size};
use crate::number::sums::{cut_at, exact_sum, is_ordinary, law_cut_sum, law_equal_sums,
    law_sum_of_products, lemma_agree, lemma_multiple, lemma_ordinary_prefix, lemma_ordinary_term,
    rounded_sum, MOST_TERMS};
use crate::specimen::{Segment, Specimen};
use vstd::arithmetic::power2::lemma_pow2_pos;
use vstd::seq_lib::{commutative_foldl, lemma_fold_left_permutation};


verus! {

/// How long a segment lasts, and the share of its life that an hour of it takes.
pub open spec fn share_of<M: Fn(Call) -> Real>(
    math: M,
    plan: Plan,
    u: Seq<Real>,
    heat: Seq<char>,
    g: Segment,
) -> (Real, Real) {
    let mu = plan.life(
        math,
        u,
        plan.heat_place(heat),
        g.temp_kelvin,
        plan.x_of(math, g.stress_mpa),
    );
    (g.duration_h, answer(math, Call::Pow10(fneg(mu))))
}

/// The shares of the segments of a specimen.
pub open spec fn shares_of<M: Fn(Call) -> Real>(
    math: M,
    plan: Plan,
    u: Seq<Real>,
    s: Specimen,
) -> Seq<(Real, Real)> {
    Seq::new(s.segments@.len(), |i: int| share_of(math, plan, u, s.heat@, s.segments@[i]))
}

proof fn lemma_damage_is_sum<M: Fn(Call) -> Real>(
    math: M,
    plan: Plan,
    u: Seq<Real>,
    s: Specimen,
    k: nat,
)
    requires
        k <= s.segments@.len(),
    ensures
        damage_of(math, plan, u, plan.heat_place(s.heat@), s.segments@, k).0 == rounded_sum(
            shares_of(math, plan, u, s).take(k as int),
        ),
    decreases k,
{
    if k > 0 {
        let terms = shares_of(math, plan, u, s);
        lemma_damage_is_sum(math, plan, u, s, (k - 1) as nat);
        assert(terms.take(k as int).drop_last() =~= terms.take(k - 1));
        assert(terms.take(k as int).last() == terms[k - 1]);
    }
}

/// The damage of a row is the rounded sum of the shares.
proof fn lemma_reported_damage<M: Fn(Call) -> Real, S: Fn(Print) -> String>(
    math: M,
    show: S,
    plan: Plan,
    u: Seq<Real>,
    s: Specimen,
    r: ResidualRow,
)
    requires
        row_is(math, show, plan, u, s, r),
        s.variable,
    ensures
        r.cumulative_damage == Some(rounded_sum(shares_of(math, plan, u, s))),
{
    reveal(score_of);
    let terms = shares_of(math, plan, u, s);
    lemma_damage_is_sum(math, plan, u, s, s.segments@.len());
    assert(terms.take(s.segments@.len() as int) =~= terms);
}

/// The damage of a variable load is the sum of the durations of its segments, each times the
/// share of life that an hour takes, within `2n + 1` parts in 2^53 for `n` segments.
pub proof fn law_damage_is_sum_of_shares<M: Fn(Call) -> Real, S: Fn(Print) -> String>(
    math: M,
    show: S,
    plan: Plan,
    u: Seq<Real>,
    s: Specimen,
    r: ResidualRow,
)
    requires
        row_is(math, show, plan, u, s, r),
        s.variable,
        is_ordinary(shares_of(math, plan, u, s)),
        s.segments@.len() < BINADE,
    ensures
        r.cumulative_damage matches Some(d) && size_of(
            d.value() * one_quanta() - exact_sum(shares_of(math, plan, u, s)),
        ) * (2 * BINADE) <= (2 * s.segments@.len() + 1) * exact_sum(shares_of(math, plan, u, s)),
{
    lemma_reported_damage(math, show, plan, u, s, r);
    law_sum_of_products(shares_of(math, plan, u, s));
}

/// One more segment raises the damage by its share of life, but for three roundings: what is
/// already there stays, and no share stands in for another.
pub proof fn law_segment_adds_its_share<M: Fn(Call) -> Real, S: Fn(Print) -> String>(
    math: M,
    show: S,
    plan: Plan,
    u: Seq<Real>,
    s: Specimen,
    more: Specimen,
    g: Segment,
    a: ResidualRow,
    b: ResidualRow,
)
    requires
        row_is(math, show, plan, u, s, a),
        row_is(math, show, plan, u, more, b),
        s.variable && more.variable,
        s.heat@ == more.heat@,
        more.segments@ == s.segments@.push(g),
        is_ordinary(shares_of(math, plan, u, more)),
    ensures
        ({
            let (h, x) = share_of(math, plan, u, s.heat@, g);
            let w = h.value() * x.value();
            &&& a.cumulative_damage matches Some(d)
            &&& b.cumulative_damage matches Some(e)
            &&& 0 < w
            &&& fle(d, e)
            &&& size_of(e.value() * one_quanta() - (d.value() * one_quanta() + w)) * (2 * BINADE)
                <= 3 * (d.value() * one_quanta() + w)
        }),
{
    let terms = shares_of(math, plan, u, more);
    let t = share_of(math, plan, u, s.heat@, g);
    lemma_reported_damage(math, show, plan, u, s, a);
    lemma_reported_damage(math, show, plan, u, more, b);
    let n = s.segments@.len() as int;
    assert(terms.len() == n + 1);
    assert(terms.last() == t) by {
        assert(more.segments@[n] == g);
    }
    assert(terms.drop_last() =~= shares_of(math, plan, u, s)) by {
        assert forall|i: int| 0 <= i < n implies more.segments@[i] == #[trigger] s.segments@[i] by {}
    }
    assert(t == terms[n]);
    lemma_ordinary_prefix(terms);
    lemma_ordinary_term(t);
    let d = rounded_sum(terms.drop_last());
    let f = fmul(t.0, t.1);
    let e = fadd(d, f);
    law_sum_grows(d, f);
    law_sum_error(d, f);
    assert(mag(0) == 0);
    lemma_ranks_values(lit(ZERO), d);
    let q = one_quanta();
    lemma_pow2_pos(ONE_EXPONENT as nat);
    let w = t.0.value() * t.1.value();
    lemma_one_more(d.value(), f.value(), e.value(), w, q, 2 * BINADE);
}

proof fn lemma_one_more(d: int, f: int, e: int, w: int, q: int, u: int)
    requires
        0 <= d,
        0 <= f,
        0 < w,
        0 < q,
        2 <= u,
        size_of(e - (d + f)) * u <= d + f,
        size_of(f * q - w) * u <= w,
    ensures
        size_of(e * q - (d * q + w)) * u <= 3 * (d * q + w),
{
    let a = e - (d + f);
    let b = f * q - w;
    let (ga, gb) = (size_of(a), size_of(b));
    let aq = a * q;
    let g = size_of(aq);
    assert(g == ga * q) by (nonlinear_arith)
        requires
            aq == a * q,
            g == (if aq < 0 { -aq } else { aq }),
            ga == (if a < 0 { -a } else { a }),
            0 < q,
    ;
    let dq = d * q;
    let fq = f * q;
    assert(e * q - (dq + w) == aq + b) by (nonlinear_arith)
        requires
            aq == (e - (d + f)) * q,
            b == f * q - w,
            dq == d * q,
    ;
    assert(g * u <= dq + fq) by (nonlinear_arith)
        requires
            g == ga * q,
            ga * u <= d + f,
            dq == d * q,
            fq == f * q,
            0 < q,
    ;
    assert(0 <= dq) by (nonlinear_arith)
        requires
            dq == d * q,
            0 <= d,
            0 < q,
    ;
    assert(gb <= w) by (nonlinear_arith)
        requires
            gb * u <= w,
            2 <= u,
            0 <= gb,
    ;
    let s = size_of(e * q - (dq + w));
    assert(s * u <= g * u + gb * u) by (nonlinear_arith)
        requires
            s <= g + gb,
            0 < u,
    ;
}

/// A segment that is cut in two, wherever in the load and wherever in the segment, does the
/// damage that it did whole, within `4n + 6` parts in 2^53.
pub proof fn law_damage_of_cut<M: Fn(Call) -> Real, S: Fn(Print) -> String>(
    math: M,
    show: S,
    plan: Plan,
    u: Seq<Real>,
    whole: Specimen,
    cut: Specimen,
    i: int,
    first: Segment,
    second: Segment,
    a: ResidualRow,
    b: ResidualRow,
)
    requires
        row_is(math, show, plan, u, whole, a),
        row_is(math, show, plan, u, cut, b),
        whole.variable && cut.variable,
        whole.heat@ == cut.heat@,
        0 <= i < whole.segments@.len() < MOST_TERMS,
        first.temp_kelvin == whole.segments@[i].temp_kelvin,
        first.stress_mpa == whole.segments@[i].stress_mpa,
        second.temp_kelvin == whole.segments@[i].temp_kelvin,
        second.stress_mpa == whole.segments@[i].stress_mpa,
        first.duration_h.value() + second.duration_h.value()
            == whole.segments@[i].duration_h.value(),
        cut.segments@ == whole.segments@.take(i) + seq![first, second] + whole.segments@.skip(
            i + 1,
        ),
        is_ordinary(shares_of(math, plan, u, whole)),
        is_ordinary(shares_of(math, plan, u, cut)),
    ensures
        a.cumulative_damage matches Some(d) && b.cumulative_damage matches Some(e) && size_of(
            e.value() - d.value(),
        ) * (2 * BINADE) <= (4 * whole.segments@.len() + 6) * d.value(),
{
    lemma_reported_damage(math, show, plan, u, whole, a);
    lemma_reported_damage(math, show, plan, u, cut, b);
    let s = shares_of(math, plan, u, whole);
    let t = shares_of(math, plan, u, cut);
    assert(t =~= cut_at(s, i, first.duration_h, second.duration_h));
    law_cut_sum(s, i, first.duration_h, second.duration_h);
    law_equal_sums(t, s);
    assert(2 * (t.len() + s.len() + 2) == 4 * s.len() + 6);
}

spec fn add_share<M: Fn(Call) -> Real>(
    math: M,
    plan: Plan,
    u: Seq<Real>,
    heat: Seq<char>,
) -> spec_fn(int, Segment) -> int {
    |s: int, g: Segment|
        s + share_of(math, plan, u, heat, g).0.value() * share_of(
            math,
            plan,
            u,
            heat,
            g,
        ).1.value()
}

proof fn lemma_sum_of_segments<M: Fn(Call) -> Real>(
    math: M,
    plan: Plan,
    u: Seq<Real>,
    heat: Seq<char>,
    segs: Seq<Segment>,
)
    ensures
        exact_sum(Seq::new(segs.len(), |i: int| share_of(math, plan, u, heat, segs[i])))
            == segs.fold_left(0, add_share(math, plan, u, heat)),
    decreases segs.len(),
{
    if segs.len() > 0 {
        let terms = Seq::new(segs.len(), |i: int| share_of(math, plan, u, heat, segs[i]));
        let front = segs.drop_last();
        lemma_sum_of_segments(math, plan, u, heat, front);
        assert(terms.drop_last() =~= Seq::new(
            front.len(),
            |i: int| share_of(math, plan, u, heat, front[i]),
        ));
        assert(terms.last() == share_of(math, plan, u, heat, segs.last()));
    }
}

/// The damage does not depend on the order of the segments, within `4n + 4` parts in 2^53.
pub proof fn law_damage_in_any_order<M: Fn(Call) -> Real, S: Fn(Print) -> String>(
    math: M,
    show: S,
    plan: Plan,
    u: Seq<Real>,
    s: Specimen,
    t: Specimen,
    a: ResidualRow,
    b: ResidualRow,
)
    requires
        row_is(math, show, plan, u, s, a),
        row_is(math, show, plan, u, t, b),
        s.variable && t.variable,
        s.heat@ == t.heat@,
        s.segments@.to_multiset() == t.segments@.to_multiset(),
        s.segments@.len() <= MOST_TERMS,
        is_ordinary(shares_of(math, plan, u, s)),
        is_ordinary(shares_of(math, plan, u, t)),
    ensures
        a.cumulative_damage matches Some(d) && b.cumulative_damage matches Some(e) && size_of(
            e.value() - d.value(),
        ) * (2 * BINADE) <= (4 * s.segments@.len() + 4) * d.value(),
{
    lemma_reported_damage(math, show, plan, u, s, a);
    lemma_reported_damage(math, show, plan, u, t, b);
    s.segments@.to_multiset_ensures();
    t.segments@.to_multiset_ensures();
    let x = shares_of(math, plan, u, s);
    let y = shares_of(math, plan, u, t);
    lemma_sum_of_segments(math, plan, u, s.heat@, s.segments@);
    lemma_sum_of_segments(math, plan, u, t.heat@, t.segments@);
    let f = add_share(math, plan, u, s.heat@);
    assert(commutative_foldl(f));
    lemma_fold_left_permutation(s.segments@, t.segments@, f, 0);
    law_equal_sums(y, x);
    assert(2 * (y.len() + x.len() + 2) == 4 * x.len() + 4);
}

proof fn lemma_equal_terms(terms: Seq<(Real, Real)>, t: (Real, Real))
    requires
        forall|i: int| 0 <= i < terms.len() ==> #[trigger] terms[i] == t,
    ensures
        exact_sum(terms) == terms.len() * (t.0.value() * t.1.value()),
    decreases terms.len(),
{
    let w = t.0.value() * t.1.value();
    if terms.len() > 0 {
        let n = terms.len() as int;
        let front = terms.drop_last();
        assert forall|i: int| 0 <= i < front.len() implies #[trigger] front[i] == t by {
            assert(front[i] == terms[i]);
        }
        lemma_equal_terms(front, t);
        assert(terms[n - 1] == t);
        assert(n * w == (n - 1) * w + w) by (nonlinear_arith);
    } else {
        assert(0 * w == 0);
    }
}

/// A segment that is repeated does its damage as many times, within `2n + 6` parts in 2^53.
pub proof fn law_damage_of_equal_segments<M: Fn(Call) -> Real, S: Fn(Print) -> String>(
    math: M,
    show: S,
    plan: Plan,
    u: Seq<Real>,
    one: Specimen,
    many: Specimen,
    a: ResidualRow,
    b: ResidualRow,
)
    requires
        row_is(math, show, plan, u, one, a),
        row_is(math, show, plan, u, many, b),
        one.variable && many.variable,
        one.heat@ == many.heat@,
        one.segments@.len() == 1,
        1 <= many.segments@.len() <= MOST_TERMS,
        forall|i: int|
            0 <= i < many.segments@.len() ==> #[trigger] many.segments@[i] == one.segments@[0],
        is_ordinary(shares_of(math, plan, u, one)),
        is_ordinary(shares_of(math, plan, u, many)),
    ensures
        a.cumulative_damage matches Some(d) && b.cumulative_damage matches Some(e) && size_of(
            e.value() - many.segments@.len() * d.value(),
        ) * (2 * BINADE) <= (2 * many.segments@.len() + 6) * (many.segments@.len() * d.value()),
{
    lemma_reported_damage(math, show, plan, u, one, a);
    lemma_reported_damage(math, show, plan, u, many, b);
    let x = shares_of(math, plan, u, one);
    let y = shares_of(math, plan, u, many);
    let t = share_of(math, plan, u, one.heat@, one.segments@[0]);
    assert forall|i: int| 0 <= i < y.len() implies #[trigger] y[i] == t by {
        assert(many.segments@[i] == one.segments@[0]);
    }
    lemma_equal_terms(x, t);
    lemma_equal_terms(y, t);
    assert(x[0] == t);
    lemma_ordinary_term(t);
    law_sum_of_products(x);
    law_sum_of_products(y);
    let n = y.len() as int;
    let q = one_quanta();
    lemma_pow2_pos(ONE_EXPONENT as nat);
    let w = t.0.value() * t.1.value();
    let d = rounded_sum(x).value();
    assert(exact_sum(x) == w);
    lemma_multiple(d, w, 3, n, q, 2 * BINADE);
    assert(d * n == n * d && w * n == n * w) by (nonlinear_arith);
    assert(0 <= n * w) by (nonlinear_arith)
        requires
            0 < n,
            0 < w,
    ;
    let m = 2 * n + 1;
    assert(3 * (m + 3 + 0 + 2) <= 2 * BINADE);
    assert(m * 0 == 0);
    lemma_agree(rounded_sum(y).value(), n * d, n * w, n * w, m, 3, 0, q, 2 * BINADE);
}

/// The share of its life that a segment takes, as it is computed.
pub open spec fn taken_by<M: Fn(Call) -> Real>(
    math: M,
    plan: Plan,
    u: Seq<Real>,
    heat: Seq<char>,
    g: Segment,
) -> Real {
    let (h, x) = share_of(math, plan, u, heat, g);
    fmul(h, x)
}

/// The square of a share, times those of the spread and of the logarithm of 10.
pub open spec fn blur_of<M: Fn(Call) -> Real>(
    math: M,
    plan: Plan,
    u: Seq<Real>,
    heat: Seq<char>,
    g: Segment,
) -> Real {
    let w = taken_by(math, plan, u, heat, g);
    let tau = plan.tau(math, u);
    fmul(fmul(w, w), fmul(fmul(tau, tau), fmul(lit(LN_10), lit(LN_10))))
}

/// Whether what every segment adds to the variance is a number that is not negative.
pub open spec fn is_blurred<M: Fn(Call) -> Real>(
    math: M,
    plan: Plan,
    u: Seq<Real>,
    s: Specimen,
) -> bool {
    forall|i: int|
        0 <= i < s.segments@.len() ==> fle(
            lit(ZERO),
            #[trigger] blur_of(math, plan, u, s.heat@, s.segments@[i]),
        )
}

pub proof fn lemma_blur<M: Fn(Call) -> Real>(
    math: M,
    plan: Plan,
    u: Seq<Real>,
    s: Specimen,
    k: nat,
    i: int,
)
    requires
        is_blurred(math, plan, u, s),
        0 <= i,
        k <= s.segments@.len(),
    ensures
        ({
            let v = damage_of(math, plan, u, plan.heat_place(s.heat@), s.segments@, k).1;
            &&& fle(lit(ZERO), v)
            &&& i < k ==> fle(blur_of(math, plan, u, s.heat@, s.segments@[i]), v)
            &&& k == 1 ==> feq(v, blur_of(math, plan, u, s.heat@, s.segments@[0]))
        }),
    decreases k,
{
    if k > 0 {
        lemma_blur(math, plan, u, s, (k - 1) as nat, i);
        let hi = plan.heat_place(s.heat@);
        let v = damage_of(math, plan, u, hi, s.segments@, (k - 1) as nat).1;
        let b = blur_of(math, plan, u, s.heat@, s.segments@[k - 1]);
        assert(fle(lit(ZERO), b));
        law_sums_ordered(v, v, b, b);
        law_sum_grows(v, b);
        law_commutes(v, b);
        law_sum_grows(b, v);
        if k == 1 {
            assert(v == lit(ZERO));
            if !(b.zero() && b.neg()) {
                law_zero_added(b);
            }
            assert(mag(0) == 0);
        }
    }
}

/// A load that has taken more than its life stands above its mean, one that has taken less
/// below it; and its standing is how far the damage lies from 1 in spreads, where the spread is
/// no less than any number whose square a segment blurs it by, and, for one segment, no more
/// than any whose square holds that.
pub proof fn law_load_stands_by_damage<M: Fn(Call) -> Real, S: Fn(Print) -> String>(
    math: M,
    show: S,
    plan: Plan,
    u: Seq<Real>,
    s: Specimen,
    r: ResidualRow,
    i: int,
    x: Real,
    y: Real,
)
    requires
        is_faithful(math),
        takes_roots(math),
        row_is(math, show, plan, u, s, r),
        s.variable,
        is_blurred(math, plan, u, s),
        0 <= i < s.segments@.len(),
        of_ordinary_size(x),
        of_ordinary_size(y),
        fle(fmul(x, x), blur_of(math, plan, u, s.heat@, s.segments@[i])),
        r.cumulative_damage matches Some(d) && d.finite() && fsub(d, lit(ONE)).finite(),
    ensures
        ({
            let d = r.cumulative_damage->0;
            let off = fsub(d, lit(ONE));
            &&& r.std_residual matches Some(z)
            &&& fle(lit(ONE), d) ==> fle(lit(ZERO), z) && fle(z, fdiv(off, x))
            &&& fle(d, lit(ONE)) ==> fle(z, lit(ZERO)) && fle(fdiv(off, x), z)
            &&& s.segments@.len() == 1 && fle(
                blur_of(math, plan, u, s.heat@, s.segments@[0]),
                fmul(y, y),
            ) && fle(lit(TINY), fmul(y, y)) ==> {
                &&& fle(lit(ONE), d) ==> fle(fdiv(off, y), z)
                &&& fle(d, lit(ONE)) ==> fle(z, fdiv(off, y))
            }
        }),
{
    reveal(score_of);
    let hi = plan.heat_place(s.heat@);
    let n = s.segments@.len();
    let (d, v) = damage_of(math, plan, u, hi, s.segments@, n);
    lemma_blur(math, plan, u, s, n, i);
    let held = fmax(v, lit(TINY));
    let spread = answer(math, Call::Sqrt(held));
    lemma_square_of_size(x);
    lemma_square_of_size(y);
    assert(answer(math, Call::Sqrt(fmul(x, x))) == x);
    assert(answer(math, Call::Sqrt(fmul(y, y))) == y);
    assert(fle(fmul(x, x), held));
    assert(fle(x, spread));
    let off = fsub(d, lit(ONE));
    let z = fdiv(off, spread);
    assert(r.std_residual == Some(z));
    assert(r.cumulative_damage == Some(d));
    lemma_standing(d, x, spread);
    if n == 1 && fle(blur_of(math, plan, u, s.heat@, s.segments@[0]), fmul(y, y)) && fle(
        lit(TINY),
        fmul(y, y),
    ) {
        assert(fle(held, fmul(y, y)));
        assert(fle(spread, y));
        lemma_standing(d, spread, y);
    }
}

/// How a difference from 1 stands over a lesser and a greater spread.
proof fn lemma_standing(d: Real, x: Real, y: Real)
    requires
        d.finite(),
        fsub(d, lit(ONE)).finite(),
        flt(lit(ZERO), x),
        x.finite(),
        fle(x, y),
    ensures
        ({
            let off = fsub(d, lit(ONE));
            &&& fle(lit(ONE), d) ==> fle(lit(ZERO), fdiv(off, y)) && fle(
                fdiv(off, y),
                fdiv(off, x),
            )
            &&& fle(d, lit(ONE)) ==> fle(fdiv(off, y), lit(ZERO)) && fle(
                fdiv(off, x),
                fdiv(off, y),
            )
        }),
{
    let one = lit(ONE);
    let off = fsub(d, one);
    lemma_one();
    law_sum_is_number(d, fneg(one));
    if fle(one, d) {
        law_difference_not_negative(one, d);
        lemma_over_greater(off, x, y);
    }
    if fle(d, one) {
        law_sum_monotone(d, one, fneg(one));
        law_nothing_left(one);
        assert(fle(off, lit(ZERO)));
        let m = fneg(off);
        law_negation(off, lit(ZERO));
        lemma_over_greater(m, x, y);
        law_signs(m, x);
        law_signs(m, y);
        assert(fneg(m) == off);
        law_negation(fdiv(m, y), fdiv(m, x));
        law_negation(lit(ZERO), fdiv(m, y));
    }
}

proof fn lemma_over_greater(m: Real, x: Real, y: Real)
    requires
        fle(lit(ZERO), m),
        flt(lit(ZERO), x),
        x.finite(),
        fle(x, y),
        y.finite() || m.finite(),
    ensures
        fle(lit(ZERO), fdiv(m, y)),
        fle(fdiv(m, y), fdiv(m, x)),
{
    law_quotient_monotone(m, m, x);
    if y.finite() {
        law_divisor_lowers(m, x, y);
    }
}

} // verus!
