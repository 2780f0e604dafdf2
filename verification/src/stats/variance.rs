//! How the covariance of the searched values bears on a prediction.
use vstd::prelude::*;
use crate::host::Call;
use crate::linalg::{bumped, dipped, fsum};
use crate::models::ModelKind;
use crate::number::{fabs, fle, flt, fmax, lit, mag, Real, BINADE};
use crate::number::arith::{fadd, fmul, fsub, ONE_EXPONENT};
use crate::number::consts::ZERO;
use crate::number::error::size_of;
use crate::number::order::{law_commutes, law_products_ordered, law_reach, law_sum_exact,
    law_zero_added};
use crate::number::rounding::lemma_mag_monotone;
use crate::number::shape::{law_central_difference, lemma_nothing_times};
use crate::stats::FitOutput;
use crate::stats::engine::{ridged, LEAST_WEIGHT, NUDGE};
use crate::stats::predict::{jacobian_of, life_at, row_terms, variance_of, variance_terms,
    DERIVATIVE_STEP};
use vstd::arithmetic::power2::pow2;

verus! {

/// The derivative of a mean log10 life by a searched value, times twice the step, is the
/// difference of the lives a step above and a step below, but for roundings.
pub proof fn law_slope_times_way<M: Fn(Call) -> Real>(
    math: M,
    kind: ModelKind,
    fo: FitOutput,
    temp_k: Real,
    stress: Real,
    i: int,
)
    requires
        0 <= i < fo.raw@.len() - 1,
        ({
            let h = lit(DERIVATIVE_STEP);
            let x = fo.raw@;
            let (t, s) = (fo.temp_max_k, fo.ws_scale);
            let up = life_at(math, kind, x.update(i, fadd(x[i], h)), t, temp_k, stress, s);
            let down = life_at(math, kind, x.update(i, fsub(x[i], h)), t, temp_k, stress, s);
            up.finite() && down.finite() && fsub(up, down).finite()
        }),
        jacobian_of(math, kind, fo, temp_k, stress)[i].finite(),
    ensures
        ({
            let h = lit(DERIVATIVE_STEP);
            let x = fo.raw@;
            let (t, s) = (fo.temp_max_k, fo.ws_scale);
            let up = life_at(math, kind, x.update(i, fadd(x[i], h)), t, temp_k, stress, s);
            let down = life_at(math, kind, x.update(i, fsub(x[i], h)), t, temp_k, stress, s);
            let slope = jacobian_of(math, kind, fo, temp_k, stress)[i].value();
            let way = 2 * h.value();
            let rise = up.value() - down.value();
            size_of(slope * way - rise * pow2(ONE_EXPONENT as nat)) * (2 * BINADE) <= (size_of(
                fsub(up, down).value(),
            ) + size_of(rise)) * pow2(ONE_EXPONENT as nat) + way * (2 * BINADE)
        }),
{
    let h = lit(DERIVATIVE_STEP);
    let x = fo.raw@;
    let (t, s) = (fo.temp_max_k, fo.ws_scale);
    assert(bumped(x, i, h) =~= x.update(i, fadd(x[i], h)));
    assert(dipped(x, i, h) =~= x.update(i, fsub(x[i], h)));
    let up = life_at(math, kind, bumped(x, i, h), t, temp_k, stress, s);
    let down = life_at(math, kind, dipped(x, i, h), t, temp_k, stress, s);
    law_central_difference(up, down, h);
}

/// A sum of which one term alone is not zero is that term.
proof fn lemma_lone_term(xs: Seq<Real>, k: nat, m: int)
    requires
        k <= xs.len(),
        0 <= m < xs.len(),
        forall|a: int| 0 <= a < xs.len() && a != m ==> (#[trigger] xs[a]).zero(),
        xs[m].finite(),
    ensures
        k <= m ==> fsum(xs, k) == lit(ZERO),
        k > m && xs[m].zero() ==> fsum(xs, k) == lit(ZERO),
        k > m && !xs[m].zero() ==> fsum(xs, k) == xs[m],
    decreases k,
{
    assert(mag(0) == 0);
    if k > 0 {
        lemma_lone_term(xs, (k - 1) as nat, m);
        let x = xs[k - 1];
        if k - 1 == m && !x.zero() {
            law_zero_added(x);
        } else if k - 1 > m && !xs[m].zero() {
            lemma_mag_monotone(0, xs[m].size());
            law_sum_exact(xs[m], x, xs[m]);
        }
    }
}

/// Every entry of a covariance bears on the variance of a prediction by the slopes of both of
/// its parameters: where it alone is not zero, the variance is its product with the two.
pub proof fn law_entry_counts_with_both_slopes(
    cov: Seq<Seq<Real>>,
    jac: Seq<Real>,
    i: int,
    j: int,
)
    requires
        jac.len() <= cov.len(),
        forall|a: int| 0 <= a < jac.len() ==> jac.len() <= (#[trigger] cov[a]).len(),
        0 <= i < jac.len(),
        0 <= j < jac.len(),
        forall|a: int| 0 <= a < jac.len() ==> (#[trigger] jac[a]).finite(),
        forall|a: int, b: int|
            0 <= a < jac.len() && 0 <= b < jac.len() && (a != i || b != j) ==> (
            #[trigger] cov[a][b]).zero(),
        fmul(cov[i][j], jac[j]).finite(),
        fmul(jac[i], fmul(cov[i][j], jac[j])).finite(),
        !fmul(jac[i], fmul(cov[i][j], jac[j])).zero(),
    ensures
        variance_of(cov, jac) == fmul(jac[i], fmul(cov[i][j], jac[j])),
{
    let n = jac.len();
    let ts = variance_terms(cov, jac);
    let y = fmul(cov[i][j], jac[j]);
    if y.zero() {
        lemma_nothing_times(y, jac[i]);
    }
    assert forall|a: int| 0 <= a < n implies fsum(#[trigger] row_terms(cov[a], jac), n) == (
    if a == i {
        y
    } else {
        lit(ZERO)
    }) by {
        let xs = row_terms(cov[a], jac);
        assert forall|b: int| 0 <= b < n && (a != i || b != j) implies (#[trigger] xs[b]).zero() by {
            assert(cov[a][b].zero());
            lemma_nothing_times(cov[a][b], jac[b]);
        }
        lemma_lone_term(xs, n, j);
    }
    assert forall|a: int| 0 <= a < n && a != i implies (#[trigger] ts[a]).zero() by {
        assert(fsum(row_terms(cov[a], jac), n) == lit(ZERO));
        lemma_nothing_times(lit(ZERO), jac[a]);
    }
    assert(fsum(row_terms(cov[i], jac), n) == y);
    lemma_lone_term(ts, n, i);
}

/// A ridge never lowers a curvature, leaves every other entry as it is, and gives a flat
/// direction a curvature above zero, even where it is nothing itself.
pub proof fn law_ridge_lifts_flat(h: Seq<Seq<Real>>, ridge: Real, i: int, j: int)
    requires
        0 <= i < h.len(),
        0 <= j < h[i].len(),
        i < h[i].len(),
        h[i][i].finite(),
        fle(lit(ZERO), ridge),
        ridge.finite(),
    ensures
        i != j ==> ridged(h, ridge)[i][j] == h[i][j],
        fle(h[i][i], ridged(h, ridge)[i][i]),
        h[i][i].zero() ==> flt(lit(ZERO), ridged(h, ridge)[i][i]),
{
    let d = h[i][i];
    let m = fmax(fabs(d), lit(LEAST_WEIGHT));
    law_products_ordered(ridge, ridge, m, m);
    let p = fmul(ridge, m);
    law_reach(lit(NUDGE), p);
    law_commutes(lit(NUDGE), p);
    let w = fadd(p, lit(NUDGE));
    law_reach(d, w);
    if d.zero() && w.finite() {
        law_reach(w, d);
        law_commutes(w, d);
    }
}

} // verus!
