//! Small dense matrices: sums, quadratic forms, elimination, least squares, Hessians.
use vstd::prelude::*;
use crate::host::{evaluate_at, is_objective, lemma_values, models, values};
use crate::number::{fabs, fle, flt, fmax, fmin, lit, Real};
use crate::number::arith::{fadd, fdiv, fmul, fsub};
use crate::number::consts::{FOUR, MINUS_INFINITY, ONE, PLUS_INFINITY, TWO, ZERO};
use crate::number::convert::fint;
use crate::simplex::{copy, rows};

verus! {

/// 1e-10, below which a pivot of an inversion counts as zero.
pub const PIVOT_INVERT: u64 = 0x3ddb_7cdf_d9d7_bdbb;

/// 1e-12, below which a pivot of a linear system counts as zero.
pub const PIVOT_SOLVE: u64 = 0x3d71_9799_812d_ea11;

/// 1e-4, the step of the finite differences.
pub const STEP: u64 = 0x3f1a_36e2_eb1c_432d;

/// A square table of `n` rows.
pub open spec fn square(m: Seq<Seq<Real>>, n: nat) -> bool {
    m.len() == n && forall|i: int| 0 <= i < n ==> (#[trigger] m[i]).len() == n
}

/// The sum of the first `k` numbers, from the left.
pub open spec fn fsum(xs: Seq<Real>, k: nat) -> Real
    decreases k,
{
    if k == 0 {
        lit(ZERO)
    } else {
        fadd(fsum(xs, (k - 1) as nat), xs[k - 1])
    }
}

/// The mean, which is 0 of no numbers.
pub open spec fn mean_of(xs: Seq<Real>) -> Real {
    fdiv(
        fsum(xs, xs.len()),
        fint(
            if xs.len() == 0 {
                1
            } else {
                xs.len() as int
            },
        ),
    )
}

pub fn sum(xs: &Vec<Real>) -> (r: Real)
    ensures
        r == fsum(xs@, xs@.len()),
{
    let mut s: Real = lit(ZERO);
    let mut i: usize = 0;
    while i < xs.len()
        invariant
            i <= xs.len(),
            s == fsum(xs@, i as nat),
        decreases xs.len() - i,
    {
        s = s.plus(xs[i]);
        i = i + 1;
    }
    s
}

pub fn mean(xs: &Vec<Real>) -> (r: Real)
    ensures
        r == mean_of(xs@),
{
    let n: usize = if xs.len() == 0 { 1 } else { xs.len() };
    sum(xs).over(Real::from_count(n as u64))
}

/// The greatest of the first `k` numbers.
pub open spec fn greatest(xs: Seq<Real>, k: nat) -> Real
    decreases k,
{
    if k == 0 {
        lit(MINUS_INFINITY)
    } else {
        fmax(greatest(xs, (k - 1) as nat), xs[k - 1])
    }
}

/// The least of the first `k` numbers.
pub open spec fn least(xs: Seq<Real>, k: nat) -> Real
    decreases k,
{
    if k == 0 {
        lit(PLUS_INFINITY)
    } else {
        fmin(least(xs, (k - 1) as nat), xs[k - 1])
    }
}

/// The least and the greatest of numbers are among them, and none lies beyond.
pub proof fn law_extremes(xs: Seq<Real>, k: nat)
    requires
        k <= xs.len(),
        forall|i: int| 0 <= i < k ==> !(#[trigger] xs[i]).nan(),
    ensures
        !least(xs, k).nan(),
        !greatest(xs, k).nan(),
        forall|i: int|
            0 <= i < k ==> fle(least(xs, k), #[trigger] xs[i]) && fle(xs[i], greatest(xs, k)),
        0 < k ==> exists|i: int| 0 <= i < k && #[trigger] xs[i] == least(xs, k),
        0 < k ==> exists|i: int| 0 <= i < k && #[trigger] xs[i] == greatest(xs, k),
    decreases k,
{
    if k > 0 {
        let m = (k - 1) as nat;
        law_extremes(xs, m);
        assert(!xs[k - 1].nan());
        if least(xs, k) != xs[k - 1] {
            assert(least(xs, k) == least(xs, m));
            if m == 0 {
                assert(xs[0].rank() >= lit(PLUS_INFINITY).rank());
                assert(xs[0] == lit(PLUS_INFINITY));
            }
        }
        if greatest(xs, k) != xs[k - 1] {
            assert(greatest(xs, k) == greatest(xs, m));
            if m == 0 {
                assert(xs[0].rank() <= lit(MINUS_INFINITY).rank());
                assert(xs[0] == lit(MINUS_INFINITY));
            }
        }
    }
}

pub fn greatest_of(xs: &Vec<Real>) -> (r: Real)
    ensures
        r == greatest(xs@, xs@.len()),
{
    let mut m: Real = lit(MINUS_INFINITY);
    let mut i: usize = 0;
    while i < xs.len()
        invariant
            i <= xs@.len(),
            m == greatest(xs@, i as nat),
        decreases xs@.len() - i,
    {
        m = m.max(xs[i]);
        i = i + 1;
    }
    m
}

pub fn least_of(xs: &Vec<Real>) -> (r: Real)
    ensures
        r == least(xs@, xs@.len()),
{
    let mut m: Real = lit(PLUS_INFINITY);
    let mut i: usize = 0;
    while i < xs.len()
        invariant
            i <= xs@.len(),
            m == least(xs@, i as nat),
        decreases xs@.len() - i,
    {
        m = m.min(xs[i]);
        i = i + 1;
    }
    m
}

// ---- quadratic forms ----

/// `acc` and the first `k` terms of `gi row g`; with `skip`, terms of infinite or
/// undefined entries are left out.
pub open spec fn row_form(acc: Real, row: Seq<Real>, gi: Real, g: Seq<Real>, skip: bool, k: nat) -> Real
    decreases k,
{
    if k == 0 {
        acc
    } else {
        let before = row_form(acc, row, gi, g, skip, (k - 1) as nat);
        if skip && !row[k - 1].finite() {
            before
        } else {
            fadd(before, fmul(fmul(gi, row[k - 1]), g[k - 1]))
        }
    }
}

/// The first `k` rows of the quadratic form of `m` at `g`.
pub open spec fn form(m: Seq<Seq<Real>>, g: Seq<Real>, skip: bool, k: nat) -> Real
    decreases k,
{
    if k == 0 {
        lit(ZERO)
    } else {
        row_form(form(m, g, skip, (k - 1) as nat), m[k - 1], g[k - 1], g, skip, g.len())
    }
}

/// The quadratic form, no less than 0.
pub open spec fn form_of(m: Seq<Seq<Real>>, g: Seq<Real>, skip: bool) -> Real {
    fmax(form(m, g, skip, g.len()), lit(ZERO))
}

/// The quadratic form of `m` at `g`, no less than 0.
pub fn quadratic(m: &Vec<Vec<Real>>, g: &Vec<Real>, skip: bool) -> (r: Real)
    requires
        m@.len() >= g@.len(),
        forall|i: int| 0 <= i < m@.len() ==> (#[trigger] m@[i])@.len() >= g@.len(),
    ensures
        r == form_of(rows(m@), g@, skip),
{
    let n: usize = g.len();
    let mut s: Real = lit(ZERO);
    let mut i: usize = 0;
    while i < n
        invariant
            n == g@.len(),
            m@.len() >= n,
            forall|i: int| 0 <= i < m@.len() ==> (#[trigger] m@[i])@.len() >= n,
            i <= n,
            s == form(rows(m@), g@, skip, i as nat),
        decreases n - i,
    {
        let mut j: usize = 0;
        let ghost acc = s;
        while j < n
            invariant
                n == g@.len(),
                m@.len() >= n,
                forall|i: int| 0 <= i < m@.len() ==> (#[trigger] m@[i])@.len() >= n,
                i < n,
                j <= n,
                s == row_form(acc, rows(m@)[i as int], g@[i as int], g@, skip, j as nat),
            decreases n - j,
        {
            let e: Real = m[i][j];
            if !skip || e.is_finite() {
                s = s.plus(g[i].times(e).times(g[j]));
            }
            j = j + 1;
        }
        i = i + 1;
    }
    s.max(lit(ZERO))
}

/// The quadratic form of a covariance, over its finite entries.
pub fn quad_form(cov: &Vec<Vec<Real>>, g: &Vec<Real>) -> (r: Real)
    requires
        cov@.len() >= g@.len(),
        forall|i: int| 0 <= i < cov@.len() ==> (#[trigger] cov@[i])@.len() >= g@.len(),
    ensures
        r == form_of(rows(cov@), g@, true),
{
    quadratic(cov, g, true)
}

// ---- elimination ----

/// The row from `col` on, below `k`, whose entry in `col` is the greatest in size: the
/// first such row, or the `last`.
pub open spec fn pivot(m: Seq<Seq<Real>>, col: int, last: bool, k: int) -> int
    decreases k - col,
{
    if k <= col + 1 {
        col
    } else {
        let b = pivot(m, col, last, k - 1);
        let better = if last {
            fle(fabs(m[b][col]), fabs(m[k - 1][col]))
        } else {
            flt(fabs(m[b][col]), fabs(m[k - 1][col]))
        };
        if better {
            k - 1
        } else {
            b
        }
    }
}

fn find_pivot(m: &Vec<Vec<Real>>, col: usize, last: bool) -> (r: usize)
    requires
        square(rows(m@), m@.len()),
        col < m@.len(),
    ensures
        r == pivot(rows(m@), col as int, last, m@.len() as int),
        col <= r < m@.len(),
{
    let n: usize = m.len();
    let mut b: usize = col;
    let mut k: usize = col + 1;
    while k < m.len()
        invariant
            square(rows(m@), m@.len()),
            col < k <= m@.len(),
            b == pivot(rows(m@), col as int, last, k as int),
            col <= b < k,
        decreases m@.len() - k,
    {
        proof {
            assert(rows(m@)[b as int].len() == m@.len());
            assert(rows(m@)[k as int].len() == m@.len());
        }
        let x: Real = m[b][col].abs();
        let y: Real = m[k][col].abs();
        let better: bool = if last { x.le(y) } else { x.lt(y) };
        if better {
            b = k;
        }
        k = k + 1;
    }
    b
}

pub open spec fn swapped<T>(m: Seq<T>, i: int, j: int) -> Seq<T> {
    Seq::new(
        m.len(),
        |k: int|
            if k == i {
                m[j]
            } else if k == j {
                m[i]
            } else {
                m[k]
            },
    )
}

/// `row - factor * by`
pub open spec fn less(row: Seq<Real>, factor: Real, by: Seq<Real>) -> Seq<Real> {
    Seq::new(row.len(), |j: int| fsub(row[j], fmul(factor, by[j])))
}

pub open spec fn scaled(row: Seq<Real>, p: Real) -> Seq<Real> {
    Seq::new(row.len(), |j: int| fdiv(row[j], p))
}

/// `m` with the pivot row in place, divided by the pivot, and taken off every other row as
/// often as `a` has it in `col`.
pub open spec fn cleared(a: Seq<Seq<Real>>, m: Seq<Seq<Real>>, col: int) -> Seq<Seq<Real>> {
    let top = scaled(m[col], a[col][col]);
    Seq::new(
        m.len(),
        |r: int|
            if r == col {
                top
            } else {
                less(m[r], a[r][col], top)
            },
    )
}

/// The inverse from column `col` on, where `a` has been reduced and `inv` follows it.
pub open spec fn reduce(
    a: Seq<Seq<Real>>,
    inv: Seq<Seq<Real>>,
    col: int,
    last: bool,
) -> Option<Seq<Seq<Real>>>
    decreases a.len() - col,
{
    if col < 0 || col >= a.len() {
        Some(inv)
    } else {
        let piv = pivot(a, col, last, a.len() as int);
        if flt(fabs(a[piv][col]), lit(PIVOT_INVERT)) {
            None
        } else {
            let a1 = swapped(a, col, piv);
            let i1 = swapped(inv, col, piv);
            reduce(cleared(a1, a1, col), cleared(a1, i1, col), col + 1, last)
        }
    }
}

pub open spec fn identity(n: nat) -> Seq<Seq<Real>> {
    Seq::new(
        n,
        |i: int|
            Seq::new(
                n,
                |j: int|
                    if i == j {
                        lit(ONE)
                    } else {
                        lit(ZERO)
                    },
            ),
    )
}

/// The inverse by elimination, where no pivot counts as zero.
pub open spec fn inverse_of(a: Seq<Seq<Real>>, last: bool) -> Option<Seq<Seq<Real>>> {
    reduce(a, identity(a.len()), 0, last)
}

fn unit_rows(n: usize) -> (m: Vec<Vec<Real>>)
    ensures
        rows(m@) == identity(n as nat),
        m@.len() == n,
{
    let mut m: Vec<Vec<Real>> = Vec::new();
    let mut i: usize = 0;
    while i < n
        invariant
            i <= n,
            m@.len() == i,
            forall|k: int| 0 <= k < i ==> (#[trigger] m@[k])@ == identity(n as nat)[k],
        decreases n - i,
    {
        let mut row: Vec<Real> = Vec::new();
        let mut j: usize = 0;
        while j < n
            invariant
                i < n,
                j <= n,
                row@.len() == j,
                forall|k: int| 0 <= k < j ==> #[trigger] row@[k] == identity(n as nat)[i as int][k],
            decreases n - j,
        {
            row.push(if i == j { lit(ONE) } else { lit(ZERO) });
            j = j + 1;
        }
        proof {
            assert(row@ =~= identity(n as nat)[i as int]);
        }
        m.push(row);
        i = i + 1;
    }
    proof {
        assert(rows(m@) =~= identity(n as nat));
    }
    m
}

pub fn copy_rows(m: &Vec<Vec<Real>>) -> (r: Vec<Vec<Real>>)
    ensures
        rows(r@) == rows(m@),
        r@.len() == m@.len(),
{
    let mut r: Vec<Vec<Real>> = Vec::new();
    let mut i: usize = 0;
    while i < m.len()
        invariant
            i <= m.len(),
            r@.len() == i,
            forall|k: int| 0 <= k < i ==> (#[trigger] r@[k])@ == m@[k]@,
        decreases m.len() - i,
    {
        r.push(copy(&m[i]));
        i = i + 1;
    }
    proof {
        assert(rows(r@) =~= rows(m@));
    }
    r
}

fn exchange(m: &mut Vec<Vec<Real>>, i: usize, j: usize)
    requires
        i < old(m)@.len(),
        j < old(m)@.len(),
    ensures
        rows(final(m)@) == swapped(rows(old(m)@), i as int, j as int),
        final(m)@.len() == old(m)@.len(),
{
    let a: Vec<Real> = copy(&m[i]);
    let b: Vec<Real> = copy(&m[j]);
    m.set(i, b);
    m.set(j, a);
    proof {
        assert(rows(m@) =~= swapped(rows(old(m)@), i as int, j as int));
    }
}

fn scale_row(row: &Vec<Real>, p: Real) -> (r: Vec<Real>)
    ensures
        r@ == scaled(row@, p),
{
    let mut r: Vec<Real> = Vec::new();
    let mut j: usize = 0;
    while j < row.len()
        invariant
            j <= row.len(),
            r@.len() == j,
            forall|k: int| 0 <= k < j ==> #[trigger] r@[k] == fdiv(row@[k], p),
        decreases row.len() - j,
    {
        r.push(row[j].over(p));
        j = j + 1;
    }
    proof {
        assert(r@ =~= scaled(row@, p));
    }
    r
}

fn less_row(row: &Vec<Real>, factor: Real, by: &Vec<Real>) -> (r: Vec<Real>)
    requires
        row@.len() == by@.len(),
    ensures
        r@ == less(row@, factor, by@),
{
    let mut r: Vec<Real> = Vec::new();
    let mut j: usize = 0;
    while j < row.len()
        invariant
            row@.len() == by@.len(),
            j <= row.len(),
            r@.len() == j,
            forall|k: int| 0 <= k < j ==> #[trigger] r@[k] == fsub(row@[k], fmul(factor, by@[k])),
        decreases row.len() - j,
    {
        r.push(row[j].minus(factor.times(by[j])));
        j = j + 1;
    }
    proof {
        assert(r@ =~= less(row@, factor, by@));
    }
    r
}

fn clear(a: &Vec<Vec<Real>>, m: &Vec<Vec<Real>>, col: usize) -> (r: Vec<Vec<Real>>)
    requires
        square(rows(a@), a@.len()),
        square(rows(m@), a@.len()),
        col < a@.len(),
    ensures
        rows(r@) == cleared(rows(a@), rows(m@), col as int),
        square(rows(r@), a@.len()),
        r@.len() == a@.len(),
{
    let n: usize = a.len();
    proof {
        assert(rows(a@)[col as int].len() == n);
        assert(rows(m@)[col as int].len() == n);
        assert(rows(m@).len() == n);
    }
    let top: Vec<Real> = scale_row(&m[col], a[col][col]);
    let mut r: Vec<Vec<Real>> = Vec::new();
    let mut i: usize = 0;
    let ghost want = cleared(rows(a@), rows(m@), col as int);
    while i < n
        invariant
            n == a@.len(),
            m@.len() == n,
            col < n,
            i <= n,
            square(rows(a@), n as nat),
            square(rows(m@), n as nat),
            top@ == scaled(rows(m@)[col as int], rows(a@)[col as int][col as int]),
            top@.len() == n,
            want == cleared(rows(a@), rows(m@), col as int),
            r@.len() == i,
            forall|k: int| 0 <= k < i ==> (#[trigger] r@[k])@ == want[k],
        decreases n - i,
    {
        proof {
            assert(rows(a@)[i as int].len() == n);
            assert(rows(m@)[i as int].len() == n);
        }
        if i == col {
            r.push(copy(&top));
        } else {
            r.push(less_row(&m[i], a[i][col], &top));
        }
        i = i + 1;
    }
    proof {
        assert(rows(r@) =~= want);
    }
    r
}

/// The inverse by elimination with the first or the `last` of equal pivots; `None` where a
/// pivot counts as zero.
pub fn invert(matrix: &Vec<Vec<Real>>, last: bool) -> (r: Option<Vec<Vec<Real>>>)
    requires
        square(rows(matrix@), matrix@.len()),
    ensures
        match r {
            Some(m) => inverse_of(rows(matrix@), last) == Some(rows(m@)) && square(
                rows(m@),
                matrix@.len(),
            ),
            None => inverse_of(rows(matrix@), last) is None,
        },
{
    let n: usize = matrix.len();
    let mut a: Vec<Vec<Real>> = copy_rows(matrix);
    let mut inv: Vec<Vec<Real>> = unit_rows(n);
    let mut col: usize = 0;
    while col < n
        invariant
            n == matrix@.len(),
            col <= n,
            a@.len() == n,
            inv@.len() == n,
            square(rows(a@), n as nat),
            square(rows(inv@), n as nat),
            inverse_of(rows(matrix@), last) == reduce(rows(a@), rows(inv@), col as int, last),
        decreases n - col,
    {
        let piv: usize = find_pivot(&a, col, last);
        proof {
            assert(rows(a@)[piv as int].len() == n);
        }
        if a[piv][col].abs().lt(lit(PIVOT_INVERT)) {
            return None;
        }
        let ghost a0 = rows(a@);
        let ghost i0 = rows(inv@);
        exchange(&mut a, col, piv);
        exchange(&mut inv, col, piv);
        proof {
            assert(square(rows(a@), n as nat)) by {
                assert forall|i: int| 0 <= i < n implies (#[trigger] rows(a@)[i]).len() == n by {
                    assert(a0[i].len() == n && a0[col as int].len() == n && a0[piv as int].len() == n);
                }
            }
            assert(square(rows(inv@), n as nat)) by {
                assert forall|i: int| 0 <= i < n implies (#[trigger] rows(inv@)[i]).len() == n by {
                    assert(i0[i].len() == n && i0[col as int].len() == n && i0[piv as int].len() == n);
                }
            }
        }
        let inv2: Vec<Vec<Real>> = clear(&a, &inv, col);
        let a2: Vec<Vec<Real>> = clear(&a, &a, col);
        a = a2;
        inv = inv2;
        col = col + 1;
    }
    Some(inv)
}

/// The inverse of a positive definite matrix.
pub fn invert_pd(matrix: &Vec<Vec<Real>>) -> (r: Option<Vec<Vec<Real>>>)
    requires
        square(rows(matrix@), matrix@.len()),
    ensures
        match r {
            Some(m) => inverse_of(rows(matrix@), false) == Some(rows(m@)) && square(
                rows(m@),
                matrix@.len(),
            ),
            None => inverse_of(rows(matrix@), false) is None,
        },
{
    invert(matrix, false)
}

/// The inverse of a symmetric matrix.
pub fn invert_symmetric(a: &Vec<Vec<Real>>) -> (r: Option<Vec<Vec<Real>>>)
    requires
        square(rows(a@), a@.len()),
    ensures
        match r {
            Some(m) => inverse_of(rows(a@), true) == Some(rows(m@)) && square(rows(m@), a@.len()),
            None => inverse_of(rows(a@), true) is None,
        },
{
    invert(a, true)
}

// ---- linear systems ----

/// `row` from `col` on less `factor` times `by`.
pub open spec fn less_from(row: Seq<Real>, factor: Real, by: Seq<Real>, col: int) -> Seq<Real> {
    Seq::new(
        row.len(),
        |j: int|
            if j < col {
                row[j]
            } else {
                fsub(row[j], fmul(factor, by[j]))
            },
    )
}

/// How often the pivot row is taken off row `r`.
pub open spec fn multiplier(a: Seq<Seq<Real>>, r: int, col: int) -> Real {
    fdiv(a[r][col], a[col][col])
}

/// The matrix with the pivot row taken off every other row.
pub open spec fn eliminated(a: Seq<Seq<Real>>, col: int) -> Seq<Seq<Real>> {
    Seq::new(
        a.len(),
        |r: int|
            if r == col {
                a[r]
            } else {
                less_from(a[r], multiplier(a, r, col), a[col], col)
            },
    )
}

/// The right side with the pivot row taken off every other row.
pub open spec fn eliminated_right(a: Seq<Seq<Real>>, b: Seq<Real>, col: int) -> Seq<Real> {
    Seq::new(
        b.len(),
        |r: int|
            if r == col {
                b[r]
            } else {
                fsub(b[r], fmul(multiplier(a, r, col), b[col]))
            },
    )
}

/// The solution from column `col` on.
pub open spec fn solve_from(a: Seq<Seq<Real>>, b: Seq<Real>, col: int) -> Option<Seq<Real>>
    decreases b.len() - col,
{
    if col < 0 || col >= b.len() {
        Some(Seq::new(b.len(), |i: int| fdiv(b[i], a[i][i])))
    } else {
        let piv = pivot(a, col, true, a.len() as int);
        if flt(fabs(a[piv][col]), lit(PIVOT_SOLVE)) {
            None
        } else {
            let a1 = swapped(a, col, piv);
            let b1 = swapped(b, col, piv);
            solve_from(eliminated(a1, col), eliminated_right(a1, b1, col), col + 1)
        }
    }
}

fn less_row_from(row: &Vec<Real>, factor: Real, by: &Vec<Real>, col: usize) -> (r: Vec<Real>)
    requires
        row@.len() == by@.len(),
    ensures
        r@ == less_from(row@, factor, by@, col as int),
{
    let mut r: Vec<Real> = Vec::new();
    let mut j: usize = 0;
    while j < row.len()
        invariant
            row@.len() == by@.len(),
            j <= row.len(),
            r@.len() == j,
            forall|k: int|
                0 <= k < j ==> #[trigger] r@[k] == less_from(row@, factor, by@, col as int)[k],
        decreases row.len() - j,
    {
        r.push(if j < col { row[j] } else { row[j].minus(factor.times(by[j])) });
        j = j + 1;
    }
    proof {
        assert(r@ =~= less_from(row@, factor, by@, col as int));
    }
    r
}

/// The solution of a linear system by elimination; `None` where a pivot counts as zero.
pub fn solve_linear(matrix: &Vec<Vec<Real>>, right: &Vec<Real>) -> (r: Option<Vec<Real>>)
    requires
        square(rows(matrix@), right@.len()),
    ensures
        match r {
            Some(x) => solve_from(rows(matrix@), right@, 0) == Some(x@) && x@.len() == right@.len(),
            None => solve_from(rows(matrix@), right@, 0) is None,
        },
{
    let n: usize = right.len();
    let mut a: Vec<Vec<Real>> = copy_rows(matrix);
    let mut b: Vec<Real> = copy(right);
    proof {
        assert(rows(matrix@).len() == n);
    }
    let mut col: usize = 0;
    while col < n
        invariant
            n == right@.len(),
            col <= n,
            a@.len() == n,
            b@.len() == n,
            square(rows(a@), n as nat),
            solve_from(rows(matrix@), right@, 0) == solve_from(rows(a@), b@, col as int),
        decreases n - col,
    {
        let piv: usize = find_pivot(&a, col, true);
        proof {
            assert(rows(a@)[piv as int].len() == n);
        }
        if a[piv][col].abs().lt(lit(PIVOT_SOLVE)) {
            return None;
        }
        let ghost a0 = rows(a@);
        let ghost b0 = b@;
        exchange(&mut a, col, piv);
        let x: Real = b[col];
        let y: Real = b[piv];
        b.set(col, y);
        b.set(piv, x);
        let ghost a1 = rows(a@);
        let ghost b1 = b@;
        proof {
            assert(b1 =~= swapped(b0, col as int, piv as int));
            assert forall|i: int| 0 <= i < n implies (#[trigger] a1[i]).len() == n by {
                assert(a0[i].len() == n && a0[col as int].len() == n && a0[piv as int].len() == n);
            }
        }
        let mut a2: Vec<Vec<Real>> = Vec::new();
        let mut b2: Vec<Real> = Vec::new();
        let mut i: usize = 0;
        while i < n
            invariant
                n == a@.len(),
                n == b@.len(),
                col < n,
                i <= n,
                rows(a@) == a1,
                b@ == b1,
                square(a1, n as nat),
                a2@.len() == i,
                b2@.len() == i,
                forall|k: int|
                    0 <= k < i ==> (#[trigger] a2@[k])@ == (if k == col {
                        a1[k]
                    } else {
                        less_from(a1[k], multiplier(a1, k, col as int), a1[col as int], col as int)
                    }),
                forall|k: int|
                    0 <= k < i ==> #[trigger] b2@[k] == (if k == col {
                        b1[k]
                    } else {
                        fsub(b1[k], fmul(multiplier(a1, k, col as int), b1[col as int]))
                    }),
            decreases n - i,
        {
            proof {
                assert(a1[i as int].len() == n);
                assert(a1[col as int].len() == n);
                assert(a1[i as int] == a@[i as int]@);
                assert(a1[col as int] == a@[col as int]@);
            }
            if i == col {
                a2.push(copy(&a[i]));
                b2.push(b[i]);
            } else {
                let f: Real = a[i][col].over(a[col][col]);
                a2.push(less_row_from(&a[i], f, &a[col], col));
                b2.push(b[i].minus(f.times(b[col])));
            }
            i = i + 1;
        }
        proof {
            assert(solve_from(a0, b0, col as int) == solve_from(
                eliminated(a1, col as int),
                eliminated_right(a1, b1, col as int),
                col + 1,
            ));
            assert(rows(a2@) =~= eliminated(a1, col as int));
            assert(b2@ =~= eliminated_right(a1, b1, col as int));
            assert forall|k: int| 0 <= k < n implies (#[trigger] rows(a2@)[k]).len() == n by {
                assert(a1[k].len() == n);
            }
        }
        a = a2;
        b = b2;
        col = col + 1;
    }
    let mut out: Vec<Real> = Vec::new();
    let mut i: usize = 0;
    while i < n
        invariant
            n == a@.len(),
            n == b@.len(),
            i <= n,
            square(rows(a@), n as nat),
            out@.len() == i,
            forall|k: int| 0 <= k < i ==> #[trigger] out@[k] == fdiv(b@[k], rows(a@)[k][k]),
        decreases n - i,
    {
        proof {
            assert(rows(a@)[i as int].len() == n);
        }
        out.push(b[i].over(a[i][i]));
        i = i + 1;
    }
    proof {
        assert(out@ =~= Seq::new(b@.len(), |i: int| fdiv(b@[i], rows(a@)[i][i])));
    }
    Some(out)
}

// ---- least squares ----

/// The sum of the products of two columns over the first `k` rows.
pub open spec fn column_product(x: Seq<Seq<Real>>, i: int, j: int, k: nat) -> Real
    decreases k,
{
    if k == 0 {
        lit(ZERO)
    } else {
        fadd(column_product(x, i, j, (k - 1) as nat), fmul(x[k - 1][i], x[k - 1][j]))
    }
}

/// The sum of the products of a column and `y` over the first `k` rows.
pub open spec fn target_product(x: Seq<Seq<Real>>, y: Seq<Real>, i: int, k: nat) -> Real
    decreases k,
{
    if k == 0 {
        lit(ZERO)
    } else {
        fadd(target_product(x, y, i, (k - 1) as nat), fmul(x[k - 1][i], y[k - 1]))
    }
}

/// The least-squares coefficients by the normal equations; none where there are not more
/// rows than coefficients, or where the equations are singular.
pub open spec fn ols_of(x: Seq<Seq<Real>>, y: Seq<Real>) -> Option<Seq<Real>> {
    let p = x[0].len();
    if x.len() < p + 1 {
        None
    } else {
        solve_from(
            Seq::new(p, |i: int| Seq::new(p, |j: int| column_product(x, i, j, x.len()))),
            Seq::new(p, |i: int| target_product(x, y, i, x.len())),
            0,
        )
    }
}

pub fn ols(x: &Vec<Vec<Real>>, y: &Vec<Real>) -> (r: Option<Vec<Real>>)
    requires
        x@.len() > 0,
        x@.len() == y@.len(),
        x@[0]@.len() < usize::MAX,
        forall|i: int| 0 <= i < x@.len() ==> (#[trigger] x@[i])@.len() == x@[0]@.len(),
    ensures
        match r {
            Some(b) => ols_of(rows(x@), y@) == Some(b@) && b@.len() == x@[0]@.len(),
            None => ols_of(rows(x@), y@) is None,
        },
{
    let p: usize = x[0].len();
    let n: usize = x.len();
    proof {
        assert(rows(x@)[0] == x@[0]@);
    }
    if n < p + 1 {
        return None;
    }
    let mut xtx: Vec<Vec<Real>> = Vec::new();
    let mut xty: Vec<Real> = Vec::new();
    let mut i: usize = 0;
    while i < p
        invariant
            n == x@.len(),
            n == y@.len(),
            i <= p,
            forall|i: int| 0 <= i < n ==> (#[trigger] x@[i])@.len() == p,
            xtx@.len() == i,
            xty@.len() == i,
            forall|k: int|
                0 <= k < i ==> (#[trigger] xtx@[k])@ == Seq::new(
                    p as nat,
                    |j: int| column_product(rows(x@), k, j, n as nat),
                ),
            forall|k: int|
                0 <= k < i ==> #[trigger] xty@[k] == target_product(rows(x@), y@, k, n as nat),
        decreases p - i,
    {
        let mut t: Real = lit(ZERO);
        let mut k: usize = 0;
        while k < n
            invariant
                n == x@.len(),
                n == y@.len(),
                i < p,
                k <= n,
                forall|i: int| 0 <= i < n ==> (#[trigger] x@[i])@.len() == p,
                t == target_product(rows(x@), y@, i as int, k as nat),
            decreases n - k,
        {
            t = t.plus(x[k][i].times(y[k]));
            k = k + 1;
        }
        xty.push(t);
        let mut row: Vec<Real> = Vec::new();
        let mut j: usize = 0;
        while j < p
            invariant
                n == x@.len(),
                i < p,
                j <= p,
                forall|i: int| 0 <= i < n ==> (#[trigger] x@[i])@.len() == p,
                row@.len() == j,
                forall|k: int|
                    0 <= k < j ==> #[trigger] row@[k] == column_product(
                        rows(x@),
                        i as int,
                        k,
                        n as nat,
                    ),
            decreases p - j,
        {
            let mut s: Real = lit(ZERO);
            let mut k: usize = 0;
            while k < n
                invariant
                    n == x@.len(),
                    i < p,
                    j < p,
                    k <= n,
                    forall|i: int| 0 <= i < n ==> (#[trigger] x@[i])@.len() == p,
                    s == column_product(rows(x@), i as int, j as int, k as nat),
                decreases n - k,
            {
                s = s.plus(x[k][i].times(x[k][j]));
                k = k + 1;
            }
            row.push(s);
            j = j + 1;
        }
        proof {
            assert(row@ =~= Seq::new(
                p as nat,
                |j: int| column_product(rows(x@), i as int, j, n as nat),
            ));
        }
        xtx.push(row);
        i = i + 1;
    }
    proof {
        assert(rows(xtx@) =~= Seq::new(
            p as nat,
            |i: int| Seq::new(p as nat, |j: int| column_product(rows(x@), i, j, n as nat)),
        ));
        assert(xty@ =~= Seq::new(p as nat, |i: int| target_product(rows(x@), y@, i, n as nat)));
    }
    solve_linear(&xtx, &xty)
}

// ---- second differences ----

/// `x` with `d` added to one coordinate.
pub open spec fn bumped(x: Seq<Real>, i: int, d: Real) -> Seq<Real> {
    x.update(i, fadd(x[i], d))
}

/// `x` with `d` taken off one coordinate.
pub open spec fn dipped(x: Seq<Real>, i: int, d: Real) -> Seq<Real> {
    x.update(i, fsub(x[i], d))
}

/// The second difference of `f` in one coordinate.
pub open spec fn curvature(f: spec_fn(Seq<Real>) -> Real, x: Seq<Real>, f0: Real, i: int) -> Real {
    let h = lit(STEP);
    fdiv(
        fadd(
            fsub(f(bumped(x, i, h)), fmul(lit(TWO), f0)),
            f(dipped(x, i, h)),
        ),
        fmul(h, h),
    )
}

/// The mixed difference of `f` in two coordinates.
pub open spec fn mixed(f: spec_fn(Seq<Real>) -> Real, x: Seq<Real>, i: int, j: int) -> Real {
    let h = lit(STEP);
    let up = bumped(x, i, h);
    let down = dipped(x, i, h);
    fdiv(
        fadd(
            fsub(
                fsub(f(bumped(up, j, h)), f(dipped(up, j, h))),
                f(bumped(down, j, h)),
            ),
            f(dipped(down, j, h)),
        ),
        fmul(fmul(lit(FOUR), h), h),
    )
}

/// The matrix of second differences, symmetric by its making.
pub open spec fn hessian_of(f: spec_fn(Seq<Real>) -> Real, x: Seq<Real>, f0: Real) -> Seq<Seq<Real>> {
    Seq::new(
        x.len(),
        |i: int|
            Seq::new(
                x.len(),
                |j: int|
                    if i == j {
                        curvature(f, x, f0, i)
                    } else if i < j {
                        mixed(f, x, i, j)
                    } else {
                        mixed(f, x, j, i)
                    },
            ),
    )
}

pub fn bump(x: &Vec<Real>, i: usize, d: Real) -> (r: Vec<Real>)
    requires
        i < x@.len(),
    ensures
        r@ == bumped(x@, i as int, d),
{
    let mut r: Vec<Real> = copy(x);
    r.set(i, x[i].plus(d));
    r
}

pub fn dip(x: &Vec<Real>, i: usize, d: Real) -> (r: Vec<Real>)
    requires
        i < x@.len(),
    ensures
        r@ == dipped(x@, i as int, d),
{
    let mut r: Vec<Real> = copy(x);
    r.set(i, x[i].minus(d));
    r
}

fn second<F: Fn(&Vec<Real>) -> Real>(
    f: &F,
    x: &Vec<Real>,
    f0: Real,
    i: usize,
    Ghost(field): Ghost<spec_fn(Seq<Real>) -> Real>,
) -> (r: Real)
    requires
        models(*f, field, x@.len()),
        i < x@.len(),
    ensures
        r == curvature(field, x@, f0, i as int),
{
    let h: Real = lit(STEP);
    let fp: Real = evaluate_at(f, &bump(x, i, h), Ghost(field));
    let fm: Real = evaluate_at(f, &dip(x, i, h), Ghost(field));
    fp.minus(lit(TWO).times(f0)).plus(fm).over(h.times(h))
}

fn cross<F: Fn(&Vec<Real>) -> Real>(
    f: &F,
    x: &Vec<Real>,
    i: usize,
    j: usize,
    Ghost(field): Ghost<spec_fn(Seq<Real>) -> Real>,
) -> (r: Real)
    requires
        models(*f, field, x@.len()),
        i < x@.len(),
        j < x@.len(),
    ensures
        r == mixed(field, x@, i as int, j as int),
{
    let h: Real = lit(STEP);
    let up: Vec<Real> = bump(x, i, h);
    let down: Vec<Real> = dip(x, i, h);
    let a: Real = evaluate_at(f, &bump(&up, j, h), Ghost(field));
    let b: Real = evaluate_at(f, &dip(&up, j, h), Ghost(field));
    let c: Real = evaluate_at(f, &bump(&down, j, h), Ghost(field));
    let d: Real = evaluate_at(f, &dip(&down, j, h), Ghost(field));
    a.minus(b).minus(c).plus(d).over(lit(FOUR).times(h).times(h))
}

/// The matrix of second differences of `f` at `x`, where its value is `f0`.
pub(crate) fn hessian<F: Fn(&Vec<Real>) -> Real>(
    f: &F,
    x: &Vec<Real>,
    f0: Real,
    Ghost(field): Ghost<spec_fn(Seq<Real>) -> Real>,
) -> (r: Vec<Vec<Real>>)
    requires
        models(*f, field, x@.len()),
    ensures
        rows(r@) == hessian_of(field, x@, f0),
        square(rows(r@), x@.len()),
{
    let n: usize = x.len();
    let ghost want = hessian_of(field, x@, f0);
    let mut m: Vec<Vec<Real>> = Vec::new();
    let mut i: usize = 0;
    while i < n
        invariant
            models(*f, field, x@.len()),
            n == x@.len(),
            i <= n,
            want == hessian_of(field, x@, f0),
            m@.len() == i,
            forall|k: int| 0 <= k < i ==> (#[trigger] m@[k])@ == want[k],
        decreases n - i,
    {
        let mut row: Vec<Real> = Vec::new();
        let mut j: usize = 0;
        while j < n
            invariant
                models(*f, field, x@.len()),
                n == x@.len(),
                i < n,
                j <= n,
                want == hessian_of(field, x@, f0),
                m@.len() == i,
                forall|k: int| 0 <= k < i ==> (#[trigger] m@[k])@ == want[k],
                row@.len() == j,
                forall|k: int| 0 <= k < j ==> #[trigger] row@[k] == want[i as int][k],
            decreases n - j,
        {
            if j < i {
                proof {
                    assert(m@[j as int]@ == want[j as int]);
                    assert(want[j as int].len() == n);
                }
                row.push(m[j][i]);
            } else if i == j {
                row.push(second(f, x, f0, i, Ghost(field)));
            } else {
                row.push(cross(f, x, i, j, Ghost(field)));
            }
            j = j + 1;
        }
        proof {
            assert(row@ =~= want[i as int]);
        }
        m.push(row);
        i = i + 1;
    }
    proof {
        assert(rows(m@) =~= want);
    }
    m
}

/// The matrix of second differences of `f` at `x`, where its value is `f0`.
pub fn numeric_hessian<F: Fn(&Vec<Real>) -> Real>(f: &F, x: &Vec<Real>, f0: Real) -> (r: Vec<Vec<Real>>)
    requires
        is_objective(*f),
    ensures
        rows(r@) == hessian_of(values(*f), x@, f0),
        square(rows(r@), x@.len()),
{
    proof {
        lemma_values(*f, x@.len());
    }
    hessian(f, x, f0, Ghost(values(*f)))
}

/// A matrix of second differences is symmetric.
pub proof fn law_hessian_symmetric(f: spec_fn(Seq<Real>) -> Real, x: Seq<Real>, f0: Real, i: int, j: int)
    requires
        0 <= i < x.len(),
        0 <= j < x.len(),
    ensures
        hessian_of(f, x, f0)[i][j] == hessian_of(f, x, f0)[j][i],
{
}

} // verus!
