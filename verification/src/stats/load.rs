//! What the damage of a variable load depends on.
use vstd::prelude::*;
use crate::host::{answer, Call};
use crate::models::{mean_log_life_of, ModelKind, Scale};
use crate::number::{fle, flt, fmax, fneg, lit, Real, BINADE};
use crate::number::arith::fsub;
use crate::number::error::size_of;
use crate::number::order::lemma_ranks_values;
use crate::number::sums::{cut_at, exact_sum, is_ordinary, is_scaled, law_cut_sum, law_equal_sums,
    law_scaled_sums, rounded_sum, MOST_TERMS};
use crate::stats::{FitConfig, Obs, Seg};
use crate::stats::workspace::{bias_of, damage_of, g_of, heat_at, scale_of, LEAST_DAMAGE};
use vstd::seq_lib::{commutative_foldl, lemma_fold_left_permutation};

verus! {

/// The hours of a segment, and the part of its life that one hour uses up.
pub open spec fn term_of<M: Fn(Call) -> Real>(
    math: M,
    kind: ModelKind,
    s: Seg,
    p: Seq<Real>,
    scale: Scale,
    bias: Real,
) -> (Real, Real) {
    let mu = mean_log_life_of(kind, p, s.temp_k, s.stress, scale);
    (s.hours, answer(math, Call::Pow10(fsub(fneg(mu), bias))))
}

/// The terms of the damage, one for each segment.
pub open spec fn terms_of<M: Fn(Call) -> Real>(
    math: M,
    kind: ModelKind,
    segs: Seq<Seg>,
    p: Seq<Real>,
    scale: Scale,
    bias: Real,
) -> Seq<(Real, Real)> {
    Seq::new(segs.len(), |i: int| term_of(math, kind, segs[i], p, scale, bias))
}

/// The terms of the damage of an observation.
pub open spec fn load_of<M: Fn(Call) -> Real>(
    math: M,
    cfg: FitConfig,
    o: Obs,
    p: Seq<Real>,
    raw: Seq<Real>,
) -> Seq<(Real, Real)> {
    terms_of(
        math,
        cfg.kind,
        o.segments@,
        p,
        scale_of(math, cfg.observations@),
        bias_of(cfg, heat_at(cfg, o.heat@), raw),
    )
}

proof fn lemma_damage_is_sum<M: Fn(Call) -> Real>(
    math: M,
    kind: ModelKind,
    segs: Seq<Seg>,
    p: Seq<Real>,
    scale: Scale,
    bias: Real,
    k: nat,
)
    requires
        k <= segs.len(),
    ensures
        damage_of(math, kind, segs, p, scale, bias, k) == rounded_sum(
            terms_of(math, kind, segs, p, scale, bias).take(k as int),
        ),
    decreases k,
{
    if k > 0 {
        let terms = terms_of(math, kind, segs, p, scale, bias);
        lemma_damage_is_sum(math, kind, segs, p, scale, bias, (k - 1) as nat);
        assert(terms.take(k as int).drop_last() =~= terms.take(k - 1));
        assert(terms.take(k as int).last() == terms[k - 1]);
    }
}

/// The statistic of a variable load is the logarithm of its rounded sum, or of 1e-12.
proof fn lemma_statistic<M: Fn(Call) -> Real>(
    math: M,
    cfg: FitConfig,
    o: Obs,
    p: Seq<Real>,
    raw: Seq<Real>,
)
    requires
        o.variable,
    ensures
        g_of(math, cfg, o, p, raw) == answer(
            math,
            Call::Log10(fmax(rounded_sum(load_of(math, cfg, o, p, raw)), lit(LEAST_DAMAGE))),
        ),
{
    let scale = scale_of(math, cfg.observations@);
    let bias = bias_of(cfg, heat_at(cfg, o.heat@), raw);
    let terms = load_of(math, cfg, o, p, raw);
    lemma_damage_is_sum(math, cfg.kind, o.segments@, p, scale, bias, o.segments@.len());
    assert(terms.take(o.segments@.len() as int) =~= terms);
}

/// Whether the logarithms of damages that agree within `parts` parts in 2^53 agree within
/// `slack` quanta.
pub open spec fn log_is_smooth<M: Fn(Call) -> Real>(math: M, parts: nat, slack: int) -> bool {
    forall|x: Real, y: Real|
        fle(lit(LEAST_DAMAGE), x) && fle(lit(LEAST_DAMAGE), y) && x.finite() && y.finite()
            && size_of(x.value() - y.value()) * (2 * BINADE) <= parts * y.value() ==> size_of(
            (#[trigger] answer(math, Call::Log10(x))).value() - (#[trigger] answer(
                math,
                Call::Log10(y),
            )).value(),
        ) <= slack
}

/// The least damage is a finite positive number.
proof fn lemma_floor(x: Real)
    requires
        x.finite(),
    ensures
        fmax(x, lit(LEAST_DAMAGE)).finite(),
        fle(lit(LEAST_DAMAGE), fmax(x, lit(LEAST_DAMAGE))),
        fmax(x, lit(LEAST_DAMAGE)).value() >= lit(LEAST_DAMAGE).value(),
        fmax(x, lit(LEAST_DAMAGE)).value() >= x.value(),
        fmax(x, lit(LEAST_DAMAGE)) == x || fmax(x, lit(LEAST_DAMAGE)) == lit(LEAST_DAMAGE),
{
    if flt(x, lit(LEAST_DAMAGE)) {
        lemma_ranks_values(x, lit(LEAST_DAMAGE));
    } else {
        lemma_ranks_values(lit(LEAST_DAMAGE), x);
    }
}

/// Two loads whose damages are the same sum have the same statistic, but for what the
/// roundings of the sums do to the logarithm.
pub proof fn law_same_sum<M: Fn(Call) -> Real>(
    math: M,
    cfg: FitConfig,
    a: Obs,
    b: Obs,
    p: Seq<Real>,
    raw: Seq<Real>,
    slack: int,
)
    requires
        a.variable && b.variable,
        a.segments@.len() <= MOST_TERMS && b.segments@.len() <= MOST_TERMS,
        is_ordinary(load_of(math, cfg, a, p, raw)),
        is_ordinary(load_of(math, cfg, b, p, raw)),
        exact_sum(load_of(math, cfg, a, p, raw)) == exact_sum(load_of(math, cfg, b, p, raw)),
        log_is_smooth(math, 2 * (a.segments@.len() + b.segments@.len() + 2), slack),
    ensures
        size_of(
            g_of(math, cfg, a, p, raw).value() - g_of(math, cfg, b, p, raw).value(),
        ) <= slack,
{
    let s = load_of(math, cfg, a, p, raw);
    let t = load_of(math, cfg, b, p, raw);
    lemma_statistic(math, cfg, a, p, raw);
    lemma_statistic(math, cfg, b, p, raw);
    law_equal_sums(s, t);
    let d = rounded_sum(s);
    let e = rounded_sum(t);
    lemma_floor(d);
    lemma_floor(e);
    let x = fmax(d, lit(LEAST_DAMAGE));
    let y = fmax(e, lit(LEAST_DAMAGE));
    let parts = 2 * (a.segments@.len() + b.segments@.len() + 2);
    let far = size_of(d.value() - e.value());
    let near = size_of(x.value() - y.value());
    let v = e.value();
    let w = y.value();
    let u = 2 * BINADE;
    assert(near * u <= parts * w) by (nonlinear_arith)
        requires
            near <= far,
            far * u <= parts * v,
            v <= w,
            0 <= parts,
            0 < u,
    ;
    assert(size_of(
        answer(math, Call::Log10(x)).value() - answer(math, Call::Log10(y)).value(),
    ) <= slack);
}

/// A segment that is cut in two, wherever in the load and wherever in the segment, does the
/// damage that it did whole.
pub proof fn law_cut_anywhere<M: Fn(Call) -> Real>(
    math: M,
    cfg: FitConfig,
    whole: Obs,
    cut: Obs,
    i: int,
    first: Seg,
    second: Seg,
    p: Seq<Real>,
    raw: Seq<Real>,
    slack: int,
)
    requires
        whole.variable && cut.variable,
        whole.heat@ == cut.heat@,
        0 <= i < whole.segments@.len() < MOST_TERMS,
        first.temp_k == whole.segments@[i].temp_k && first.stress == whole.segments@[i].stress,
        second.temp_k == whole.segments@[i].temp_k && second.stress == whole.segments@[i].stress,
        first.hours.value() + second.hours.value() == whole.segments@[i].hours.value(),
        cut.segments@ == whole.segments@.take(i) + seq![first, second] + whole.segments@.skip(
            i + 1,
        ),
        is_ordinary(load_of(math, cfg, whole, p, raw)),
        is_ordinary(load_of(math, cfg, cut, p, raw)),
        log_is_smooth(math, 2 * (2 * whole.segments@.len() + 3), slack),
    ensures
        size_of(
            g_of(math, cfg, cut, p, raw).value() - g_of(math, cfg, whole, p, raw).value(),
        ) <= slack,
{
    let s = load_of(math, cfg, whole, p, raw);
    let t = load_of(math, cfg, cut, p, raw);
    assert(t =~= cut_at(s, i, first.hours, second.hours));
    law_cut_sum(s, i, first.hours, second.hours);
    law_same_sum(math, cfg, cut, whole, p, raw, slack);
}

spec fn add_segment<M: Fn(Call) -> Real>(
    math: M,
    kind: ModelKind,
    p: Seq<Real>,
    scale: Scale,
    bias: Real,
) -> spec_fn(int, Seg) -> int {
    |s: int, g: Seg|
        s + term_of(math, kind, g, p, scale, bias).0.value() * term_of(
            math,
            kind,
            g,
            p,
            scale,
            bias,
        ).1.value()
}

proof fn lemma_sum_of_segments<M: Fn(Call) -> Real>(
    math: M,
    kind: ModelKind,
    segs: Seq<Seg>,
    p: Seq<Real>,
    scale: Scale,
    bias: Real,
)
    ensures
        exact_sum(terms_of(math, kind, segs, p, scale, bias)) == segs.fold_left(
            0,
            add_segment(math, kind, p, scale, bias),
        ),
    decreases segs.len(),
{
    if segs.len() > 0 {
        let terms = terms_of(math, kind, segs, p, scale, bias);
        lemma_sum_of_segments(math, kind, segs.drop_last(), p, scale, bias);
        assert(terms.drop_last() =~= terms_of(math, kind, segs.drop_last(), p, scale, bias));
        assert(terms.last() == term_of(math, kind, segs.last(), p, scale, bias));
    }
}

/// The statistic of a load does not depend on the order of its segments.
pub proof fn law_order_of_segments<M: Fn(Call) -> Real>(
    math: M,
    cfg: FitConfig,
    a: Obs,
    b: Obs,
    p: Seq<Real>,
    raw: Seq<Real>,
    slack: int,
)
    requires
        a.variable && b.variable,
        a.heat@ == b.heat@,
        a.segments@.to_multiset() == b.segments@.to_multiset(),
        a.segments@.len() <= MOST_TERMS,
        is_ordinary(load_of(math, cfg, a, p, raw)),
        is_ordinary(load_of(math, cfg, b, p, raw)),
        log_is_smooth(math, 4 * (a.segments@.len() + 1), slack),
    ensures
        size_of(
            g_of(math, cfg, a, p, raw).value() - g_of(math, cfg, b, p, raw).value(),
        ) <= slack,
{
    let scale = scale_of(math, cfg.observations@);
    let bias = bias_of(cfg, heat_at(cfg, a.heat@), raw);
    a.segments@.to_multiset_ensures();
    b.segments@.to_multiset_ensures();
    lemma_sum_of_segments(math, cfg.kind, a.segments@, p, scale, bias);
    lemma_sum_of_segments(math, cfg.kind, b.segments@, p, scale, bias);
    let f = add_segment(math, cfg.kind, p, scale, bias);
    assert(commutative_foldl(f));
    lemma_fold_left_permutation(a.segments@, b.segments@, f, 0);
    law_same_sum(math, cfg, a, b, p, raw, slack);
}

/// Whether the logarithms of damages that are to each other as `den` to `num`, within `parts`
/// parts in 2^53, differ by `step` quanta, within `slack`.
pub open spec fn log_takes_step<M: Fn(Call) -> Real>(
    math: M,
    num: int,
    den: int,
    parts: int,
    step: int,
    slack: int,
) -> bool {
    forall|x: Real, y: Real|
        fle(lit(LEAST_DAMAGE), x) && fle(lit(LEAST_DAMAGE), y) && x.finite() && y.finite()
            && size_of(x.value() * num - y.value() * den) * (2 * BINADE) <= parts * (y.value()
            * den) ==> size_of(
            (#[trigger] answer(math, Call::Log10(x))).value() - (#[trigger] answer(
                math,
                Call::Log10(y),
            )).value() - step,
        ) <= slack
}

/// A bias that is raised lowers the statistic of a load by as much, however many segments it
/// has: where the higher bias divides every power of ten by `den / num`, and that is the
/// ratio to which the difference of the biases belongs.
pub proof fn law_bias_shifts_load<M: Fn(Call) -> Real>(
    math: M,
    cfg: FitConfig,
    o: Obs,
    p: Seq<Real>,
    low: Seq<Real>,
    high: Seq<Real>,
    num: int,
    den: int,
    parts: int,
    slack: int,
)
    requires
        o.variable,
        o.segments@.len() <= MOST_TERMS,
        0 < num && 0 < den && 0 <= parts <= MOST_TERMS,
        is_ordinary(load_of(math, cfg, o, p, low)),
        is_ordinary(load_of(math, cfg, o, p, high)),
        is_scaled(load_of(math, cfg, o, p, low), load_of(math, cfg, o, p, high), num, den, parts),
        fle(lit(LEAST_DAMAGE), rounded_sum(load_of(math, cfg, o, p, low))),
        fle(lit(LEAST_DAMAGE), rounded_sum(load_of(math, cfg, o, p, high))),
        log_takes_step(
            math,
            num,
            den,
            4 * (o.segments@.len() + 1) + parts,
            bias_of(cfg, heat_at(cfg, o.heat@), high).value() - bias_of(
                cfg,
                heat_at(cfg, o.heat@),
                low,
            ).value(),
            slack,
        ),
    ensures
        ({
            let b = bias_of(cfg, heat_at(cfg, o.heat@), low);
            let c = bias_of(cfg, heat_at(cfg, o.heat@), high);
            let fall = g_of(math, cfg, o, p, low).value() - g_of(math, cfg, o, p, high).value();
            size_of(fall - (c.value() - b.value())) <= slack
        }),
{
    let s = load_of(math, cfg, o, p, low);
    let t = load_of(math, cfg, o, p, high);
    lemma_statistic(math, cfg, o, p, low);
    lemma_statistic(math, cfg, o, p, high);
    law_scaled_sums(s, t, num, den, parts);
    let x = rounded_sum(s);
    let y = rounded_sum(t);
    assert(fmax(x, lit(LEAST_DAMAGE)) == x);
    assert(fmax(y, lit(LEAST_DAMAGE)) == y);
    let step = bias_of(cfg, heat_at(cfg, o.heat@), high).value() - bias_of(
        cfg,
        heat_at(cfg, o.heat@),
        low,
    ).value();
    assert(size_of(
        answer(math, Call::Log10(x)).value() - answer(math, Call::Log10(y)).value() - step,
    ) <= slack);
}

} // verus!
