//! The covariance of the searched values, and the derivatives along which it is carried.
use vstd::prelude::*;
use crate::fit::problem::{Plan, Problem};
use crate::fit::select::referred;
use crate::host::{is_math, Call};
use crate::linalg::{bump, bumped, column_product, copy_rows, dip, dipped, form_of, inverse_of,
    invert_pd, pivot, quadratic, square};
use crate::number::{fle, flt, lit, mag, Real, QUIET};
use crate::number::arith::{fadd, fdiv, fmul, fsub, ONE_EXPONENT};
use crate::number::consts::{ONE, TEN, TWO, ZERO};
use crate::number::order::{law_product_exact, law_products_ordered, law_reach,
    law_scaling_monotone, lemma_double, lemma_one};
use crate::simplex::{copy, rows};
use crate::specimen::{Segment, Specimen};
use vstd::arithmetic::power2::pow2;

verus! {

/// 1e-6, the first ridge.
pub const FIRST_RIDGE: u64 = 0x3eb0_c6f7_a0b5_ed8d;

/// The most ridges that are tried.
pub const RIDGES: usize = 20;

/// 1e-5, the step of the derivatives.
pub const DERIVATIVE_STEP: u64 = 0x3ee4_f8b5_88e3_68f1;

/// Whether no variance is negative.
pub open spec fn no_negative(m: Seq<Seq<Real>>) -> bool {
    forall|i: int| 0 <= i < m.len() ==> fle(lit(ZERO), #[trigger] m[i][i])
}

/// The matrix with `ridge` added to its diagonal.
pub open spec fn loaded(h: Seq<Seq<Real>>, ridge: Real) -> Seq<Seq<Real>> {
    Seq::new(h.len(), |i: int| h[i].update(i, fadd(h[i][i], ridge)))
}

/// A table without a number in it.
pub open spec fn numberless(n: nat) -> Seq<Seq<Real>> {
    Seq::new(n, |i: int| Seq::new(n, |j: int| lit(QUIET)))
}

/// The inverse of the first of `k` matrices, each with a greater ridge on it, that has one
/// without negative variances; and whether no ridge was needed.
pub open spec fn cov_of(h: Seq<Seq<Real>>, ridge: Real, k: nat) -> (Seq<Seq<Real>>, bool)
    decreases k,
{
    if k == 0 {
        (numberless(h.len()), false)
    } else {
        let tried = inverse_of(h, false);
        if tried is Some && no_negative(tried->0) {
            (tried->0, fle(ridge, lit(FIRST_RIDGE)))
        } else {
            cov_of(loaded(h, ridge), fmul(ridge, lit(TEN)), (k - 1) as nat)
        }
    }
}

fn has_no_negative(m: &Vec<Vec<Real>>) -> (r: bool)
    requires
        square(rows(m@), m@.len()),
    ensures
        r == no_negative(rows(m@)),
{
    let mut i: usize = 0;
    while i < m.len()
        invariant
            square(rows(m@), m@.len()),
            i <= m@.len(),
            forall|k: int| 0 <= k < i ==> fle(lit(ZERO), #[trigger] rows(m@)[k][k]),
        decreases m@.len() - i,
    {
        proof {
            assert(rows(m@)[i as int].len() == m@.len());
        }
        if !lit(ZERO).le(m[i][i]) {
            proof {
                assert(!fle(lit(ZERO), rows(m@)[i as int][i as int]));
            }
            return false;
        }
        i = i + 1;
    }
    true
}

fn load(h: &Vec<Vec<Real>>, ridge: Real) -> (r: Vec<Vec<Real>>)
    requires
        square(rows(h@), h@.len()),
    ensures
        rows(r@) == loaded(rows(h@), ridge),
        square(rows(r@), h@.len()),
        r@.len() == h@.len(),
{
    let n: usize = h.len();
    let mut out: Vec<Vec<Real>> = Vec::new();
    let mut i: usize = 0;
    while i < n
        invariant
            n == h@.len(),
            square(rows(h@), n as nat),
            i <= n,
            out@.len() == i,
            forall|k: int| 0 <= k < i ==> (#[trigger] out@[k])@ == loaded(rows(h@), ridge)[k],
        decreases n - i,
    {
        proof {
            assert(rows(h@)[i as int].len() == n);
        }
        let mut row: Vec<Real> = copy(&h[i]);
        row.set(i, h[i][i].plus(ridge));
        out.push(row);
        i = i + 1;
    }
    proof {
        assert(rows(out@) =~= loaded(rows(h@), ridge));
        assert forall|k: int| 0 <= k < n implies (#[trigger] rows(out@)[k]).len() == n by {
            assert(rows(h@)[k].len() == n);
        }
    }
    out
}

fn numberless_rows(n: usize) -> (m: Vec<Vec<Real>>)
    ensures
        rows(m@) == numberless(n as nat),
{
    let mut m: Vec<Vec<Real>> = Vec::new();
    let mut i: usize = 0;
    while i < n
        invariant
            i <= n,
            m@.len() == i,
            forall|k: int| 0 <= k < i ==> (#[trigger] m@[k])@ == numberless(n as nat)[k],
        decreases n - i,
    {
        let mut row: Vec<Real> = Vec::new();
        let mut j: usize = 0;
        while j < n
            invariant
                j <= n,
                row@.len() == j,
                forall|k: int| 0 <= k < j ==> #[trigger] row@[k] == lit(QUIET),
            decreases n - j,
        {
            row.push(lit(QUIET));
            j = j + 1;
        }
        proof {
            assert(row@ =~= numberless(n as nat)[i as int]);
        }
        m.push(row);
        i = i + 1;
    }
    proof {
        assert(rows(m@) =~= numberless(n as nat));
    }
    m
}

/// The covariance from the curvatures at the minimum.
pub fn cov_estimate(hess: &Vec<Vec<Real>>) -> (r: (Vec<Vec<Real>>, bool))
    requires
        square(rows(hess@), hess@.len()),
    ensures
        (rows(r.0@), r.1) == cov_of(rows(hess@), lit(FIRST_RIDGE), RIDGES as nat),
        square(rows(r.0@), hess@.len()),
{
    let n: usize = hess.len();
    let mut h: Vec<Vec<Real>> = copy_rows(hess);
    let mut ridge: Real = lit(FIRST_RIDGE);
    let mut left: usize = RIDGES;
    while left > 0
        invariant
            left <= RIDGES,
            n == hess@.len(),
            h@.len() == n,
            square(rows(h@), n as nat),
            cov_of(rows(hess@), lit(FIRST_RIDGE), RIDGES as nat) == cov_of(
                rows(h@),
                ridge,
                left as nat,
            ),
        decreases left,
    {
        match invert_pd(&h) {
            Some(cov) => {
                proof {
                    assert(rows(cov@).len() == n);
                }
                if has_no_negative(&cov) {
                    return (cov, ridge.le(lit(FIRST_RIDGE)));
                }
            },
            None => {},
        }
        h = load(&h, ridge);
        ridge = ridge.times(lit(TEN));
        left = left - 1;
    }
    (numberless_rows(n), false)
}

/// No variance is negative: where every ridge fails, there is no number instead.
pub proof fn law_no_negative_variance(h: Seq<Seq<Real>>, ridge: Real, k: nat, i: int)
    requires
        0 <= i < cov_of(h, ridge, k).0.len(),
        cov_of(h, ridge, k).0[i].len() > i,
    ensures
        cov_of(h, ridge, k).0[i][i].nan() || fle(lit(ZERO), cov_of(h, ridge, k).0[i][i]),
    decreases k,
{
    if k > 0 {
        let tried = inverse_of(h, false);
        if !(tried is Some && no_negative(tried->0)) {
            law_no_negative_variance(
                loaded(h, ridge),
                fmul(ridge, lit(TEN)),
                (k - 1) as nat,
                i,
            );
        }
    }
}

// ---- derivatives ----

/// The derivatives of a mean log10 life by the searched values.
pub open spec fn grad_u_of<M: Fn(Call) -> Real>(
    math: M,
    plan: Plan,
    tk: Real,
    x: Real,
    hi: int,
    u: Seq<Real>,
) -> Seq<Real> {
    let h = lit(DERIVATIVE_STEP);
    Seq::new(
        u.len(),
        |i: int|
            fdiv(
                fsub(
                    plan.life(math, bumped(u, i, h), hi, tk, x),
                    plan.life(math, dipped(u, i, h), hi, tk, x),
                ),
                fmul(lit(TWO), h),
            ),
    )
}

fn life<M: Fn(Call) -> Real>(
    math: &M,
    prob: &Problem,
    tk: Real,
    x: Real,
    hi: usize,
    u: &Vec<Real>,
) -> (r: Real)
    requires
        is_math(*math),
        prob.well_formed(),
        hi < prob.heats@.len(),
        u@.len() == prob.plan().dimensions(),
    ensures
        r == prob.plan().life(*math, u@, hi as int, tk, x),
{
    let (master, offs, _) = prob.decode(math, u);
    prob.model.mean(&master, tk, x).plus(offs[hi])
}

pub fn numeric_grad_u<M: Fn(Call) -> Real>(
    math: &M,
    prob: &Problem,
    tk: Real,
    x: Real,
    hi: usize,
    uhat: &Vec<Real>,
) -> (r:
    Vec<Real>)
    requires
        is_math(*math),
        prob.well_formed(),
        hi < prob.heats@.len(),
        uhat@.len() == prob.plan().dimensions(),
    ensures
        r@ == grad_u_of(*math, prob.plan(), tk, x, hi as int, uhat@),
        r@.len() == uhat@.len(),
{
    let h: Real = lit(DERIVATIVE_STEP);
    let ghost want = grad_u_of(*math, prob.plan(), tk, x, hi as int, uhat@);
    let mut g: Vec<Real> = Vec::new();
    let mut i: usize = 0;
    while i < uhat.len()
        invariant
            is_math(*math),
            prob.well_formed(),
            hi < prob.heats@.len(),
            uhat@.len() == prob.plan().dimensions(),
            h == lit(DERIVATIVE_STEP),
            want == grad_u_of(*math, prob.plan(), tk, x, hi as int, uhat@),
            i <= uhat@.len(),
            g@ == want.take(i as int),
        decreases uhat@.len() - i,
    {
        let up: Vec<Real> = bump(uhat, i, h);
        let um: Vec<Real> = dip(uhat, i, h);
        let a: Real = life(math, prob, tk, x, hi, &up);
        let b: Real = life(math, prob, tk, x, hi, &um);
        g.push(a.minus(b).over(lit(TWO).times(h)));
        proof {
            assert(g@ =~= want.take(i + 1));
        }
        i = i + 1;
    }
    proof {
        assert(g@ =~= want);
    }
    g
}

// ---- leverage ----

/// The design vectors of the segments of the first `k` specimens.
pub open spec fn design_of<M: Fn(Call) -> Real>(
    math: M,
    plan: Plan,
    specs: Seq<Specimen>,
    k: nat,
) -> Seq<Seq<Real>>
    decreases k,
{
    if k == 0 {
        Seq::empty()
    } else {
        design_of(math, plan, specs, (k - 1) as nat) + specs[k - 1].segments@.map_values(
            |g: Segment| plan.model.grad_of(g.temp_kelvin, plan.x_of(math, g.stress_mpa)),
        )
    }
}

/// The products of the columns, summed over the rows.
pub open spec fn products_of(d: Seq<Seq<Real>>) -> Seq<Seq<Real>> {
    Seq::new(4, |i: int| Seq::new(4, |j: int| column_product(d, i, j, d.len())))
}

/// How far a point stands out among the design vectors: the diagonal of the hat matrix
/// there, not a number where the vectors do not span.
pub open spec fn leverage_of<M: Fn(Call) -> Real>(
    math: M,
    plan: Plan,
    specs: Seq<Specimen>,
    tk: Real,
    x: Real,
) -> Real {
    let d = design_of(math, plan, specs, specs.len());
    match inverse_of(products_of(d), false) {
        Some(inv) => form_of(inv, plan.model.grad_of(tk, x), false),
        None => lit(QUIET),
    }
}

fn design<M: Fn(Call) -> Real>(math: &M, prob: &Problem, refs: &Vec<&Specimen>) -> (r: Vec<Vec<Real>>)
    requires
        is_math(*math),
    ensures
        rows(r@) == design_of(*math, prob.plan(), referred(refs@), refs@.len()),
        forall|i: int| 0 <= i < r@.len() ==> (#[trigger] r@[i])@.len() == 4,
{
    let mut out: Vec<Vec<Real>> = Vec::new();
    let ghost specs = referred(refs@);
    let ghost plan = prob.plan();
    proof {
        assert(rows(out@) =~= Seq::empty());
    }
    let mut i: usize = 0;
    while i < refs.len()
        invariant
            is_math(*math),
            specs == referred(refs@),
            plan == prob.plan(),
            i <= refs@.len(),
            rows(out@) == design_of(*math, plan, specs, i as nat),
            forall|i: int| 0 <= i < out@.len() ==> (#[trigger] out@[i])@.len() == 4,
        decreases refs@.len() - i,
    {
        let s: &Specimen = refs[i];
        let ghost before = rows(out@);
        let ghost more = s.segments@.map_values(
            |g: Segment| plan.model.grad_of(g.temp_kelvin, plan.x_of(*math, g.stress_mpa)),
        );
        let mut j: usize = 0;
        proof {
            assert(rows(out@) =~= before + more.take(0));
        }
        while j < s.segments.len()
            invariant
                is_math(*math),
                plan == prob.plan(),
                more == s.segments@.map_values(
                    |g: Segment| plan.model.grad_of(g.temp_kelvin, plan.x_of(*math, g.stress_mpa)),
                ),
                j <= s.segments@.len(),
                rows(out@) == before + more.take(j as int),
                forall|i: int| 0 <= i < out@.len() ==> (#[trigger] out@[i])@.len() == 4,
            decreases s.segments@.len() - j,
        {
            let g: Segment = s.segments[j];
            let x: Real = prob.x_of(math, g.stress_mpa);
            let row: Vec<Real> = prob.model.grad_mean(g.temp_kelvin, x);
            let ghost given = rows(out@);
            out.push(row);
            proof {
                assert(rows(out@) =~= given.push(row@));
                assert(rows(out@) =~= before + more.take(j + 1));
            }
            j = j + 1;
        }
        proof {
            assert(more.take(j as int) =~= more);
            assert(specs[i as int] == *s);
        }
        i = i + 1;
    }
    out
}

fn products(d: &Vec<Vec<Real>>) -> (r: Vec<Vec<Real>>)
    requires
        forall|i: int| 0 <= i < d@.len() ==> (#[trigger] d@[i])@.len() == 4,
    ensures
        rows(r@) == products_of(rows(d@)),
        square(rows(r@), 4),
        r@.len() == 4,
{
    let mut m: Vec<Vec<Real>> = Vec::new();
    let mut i: usize = 0;
    while i < 4
        invariant
            forall|i: int| 0 <= i < d@.len() ==> (#[trigger] d@[i])@.len() == 4,
            i <= 4,
            m@.len() == i,
            forall|k: int| 0 <= k < i ==> (#[trigger] m@[k])@ == products_of(rows(d@))[k],
        decreases 4 - i,
    {
        let mut row: Vec<Real> = Vec::new();
        let mut j: usize = 0;
        while j < 4
            invariant
                forall|i: int| 0 <= i < d@.len() ==> (#[trigger] d@[i])@.len() == 4,
                i < 4,
                j <= 4,
                row@.len() == j,
                forall|k: int|
                    0 <= k < j ==> #[trigger] row@[k] == products_of(rows(d@))[i as int][k],
            decreases 4 - j,
        {
            let mut s: Real = lit(ZERO);
            let mut k: usize = 0;
            while k < d.len()
                invariant
                    forall|i: int| 0 <= i < d@.len() ==> (#[trigger] d@[i])@.len() == 4,
                    i < 4,
                    j < 4,
                    k <= d@.len(),
                    s == column_product(rows(d@), i as int, j as int, k as nat),
                decreases d@.len() - k,
            {
                s = s.plus(d[k][i].times(d[k][j]));
                k = k + 1;
            }
            row.push(s);
            j = j + 1;
        }
        proof {
            assert(row@ =~= products_of(rows(d@))[i as int]);
        }
        m.push(row);
        i = i + 1;
    }
    proof {
        assert(rows(m@) =~= products_of(rows(d@)));
    }
    m
}

pub fn leverage_for<M: Fn(Call) -> Real>(
    math: &M,
    prob: &Problem,
    refs: &Vec<&Specimen>,
    tk: Real,
    x: Real,
) -> (r:
    Real)
    requires
        is_math(*math),
    ensures
        r == leverage_of(*math, prob.plan(), referred(refs@), tk, x),
{
    let d: Vec<Vec<Real>> = design(math, prob, refs);
    let xtx: Vec<Vec<Real>> = products(&d);
    proof {
        assert(referred(refs@).len() == refs@.len());
    }
    match invert_pd(&xtx) {
        Some(inv) => {
            proof {
                assert(rows(inv@).len() == 4);
                assert forall|i: int| 0 <= i < inv@.len() implies (#[trigger] inv@[i])@.len() >= 4 by {
                    assert(rows(inv@)[i].len() == 4);
                }
            }
            let g0: Vec<Real> = prob.model.grad_mean(tk, x);
            quadratic(&inv, &g0, false)
        },
        None => lit(QUIET),
    }
}

/// A leverage is not negative where it is a number, and it is one just where the design
/// vectors span: where the elimination meets no pivot that counts as zero.
pub proof fn law_leverage_not_negative<M: Fn(Call) -> Real>(
    math: M,
    plan: Plan,
    specs: Seq<Specimen>,
    tk: Real,
    x: Real,
)
    ensures
        leverage_of(math, plan, specs, tk, x).nan() || fle(
            lit(ZERO),
            leverage_of(math, plan, specs, tk, x),
        ),
        leverage_of(math, plan, specs, tk, x).nan() <==> inverse_of(
            products_of(design_of(math, plan, specs, specs.len())),
            false,
        ) is None,
{
}

/// Without a segment nothing is spanned, and there is no leverage.
pub proof fn law_no_segments_no_leverage<M: Fn(Call) -> Real>(
    math: M,
    plan: Plan,
    specs: Seq<Specimen>,
    tk: Real,
    x: Real,
)
    requires
        forall|i: int| 0 <= i < specs.len() ==> (#[trigger] specs[i]).segments@.len() == 0,
    ensures
        leverage_of(math, plan, specs, tk, x).nan(),
{
    lemma_no_design(math, plan, specs, specs.len());
    let d = design_of(math, plan, specs, specs.len());
    let m = products_of(d);
    lemma_pivot_row(m, 0, false, 4);
    let r = pivot(m, 0, false, 4);
    assert(m[r][0] == column_product(d, r, 0, 0));
}

proof fn lemma_no_design<M: Fn(Call) -> Real>(
    math: M,
    plan: Plan,
    specs: Seq<Specimen>,
    k: nat,
)
    requires
        k <= specs.len(),
        forall|i: int| 0 <= i < specs.len() ==> (#[trigger] specs[i]).segments@.len() == 0,
    ensures
        design_of(math, plan, specs, k).len() == 0,
    decreases k,
{
    if k > 0 {
        lemma_no_design(math, plan, specs, (k - 1) as nat);
        assert(specs[k - 1].segments@.len() == 0);
    }
}

proof fn lemma_pivot_row(m: Seq<Seq<Real>>, col: int, last: bool, k: int)
    requires
        0 <= col < k,
    ensures
        col <= pivot(m, col, last, k) < k,
    decreases k,
{
    if k > col + 1 {
        lemma_pivot_row(m, col, last, k - 1);
    }
}

/// Twice the first ridge.
const SECOND: u64 = 0x3ec0_c6f7_a0b5_ed8d;

proof fn lemma_ridge_grows(ridge: Real)
    requires
        fle(lit(FIRST_RIDGE), ridge),
    ensures
        flt(lit(FIRST_RIDGE), fmul(ridge, lit(TEN))),
{
    let q = pow2(ONE_EXPONENT as nat) as int;
    let f = lit(FIRST_RIDGE);
    lemma_one();
    lemma_double(ONE as int);
    lemma_double(FIRST_RIDGE as int);
    let m = mag(FIRST_RIDGE as int);
    assert(m * (2 * q) == (2 * m) * q) by (nonlinear_arith);
    law_product_exact(f, lit(TWO), lit(SECOND));
    law_products_ordered(f, f, lit(TWO), lit(TEN));
    law_scaling_monotone(f, ridge, lit(TEN));
}

proof fn lemma_later_is_told(h: Seq<Seq<Real>>, ridge: Real, k: nat)
    requires
        flt(lit(FIRST_RIDGE), ridge),
    ensures
        !cov_of(h, ridge, k).1,
    decreases k,
{
    if k > 0 {
        lemma_ridge_grows(ridge);
        lemma_later_is_told(loaded(h, ridge), fmul(ridge, lit(TEN)), (k - 1) as nat);
    }
}

/// The covariance is the inverse of the curvature itself wherever that has no negative
/// variance, and just elsewhere it is told that a ridge was needed.
pub proof fn law_ridge_is_told(h: Seq<Seq<Real>>)
    ensures
        ({
            let (cov, exact) = cov_of(h, lit(FIRST_RIDGE), RIDGES as nat);
            let inverse = inverse_of(h, false);
            &&& exact <==> inverse is Some && forall|i: int|
                0 <= i < (inverse->0).len() ==> fle(lit(ZERO), #[trigger] (inverse->0)[i][i])
            &&& exact ==> cov == inverse->0
        }),
{
    let first = lit(FIRST_RIDGE);
    lemma_ridge_grows(first);
    lemma_later_is_told(loaded(h, first), fmul(first, lit(TEN)), (RIDGES - 1) as nat);
}

/// A ridge raises the curvature in each searched value alone, and no other entry moves.
pub proof fn law_ridge_is_on_the_diagonal(h: Seq<Seq<Real>>, ridge: Real, i: int, j: int)
    requires
        0 <= i < h.len(),
        0 <= j < h[i].len(),
        i < h[i].len(),
        h[i][i].finite(),
        flt(lit(ZERO), ridge),
    ensures
        i != j ==> loaded(h, ridge)[i][j] == h[i][j],
        fle(h[i][i], loaded(h, ridge)[i][i]),
{
    law_reach(h[i][i], ridge);
}

} // verus!
