//! The leverages of the segments that a curve is fitted to.
use vstd::prelude::*;
use crate::fit::covariance::{design_of, leverage_of, products_of};
use crate::fit::problem::Plan;
use crate::host::Call;
use crate::linalg::{form_of, inverse_of};
use crate::number::Real;
use crate::number::arith::ONE_EXPONENT;
use crate::number::convert::one_quanta;
use crate::number::error::size_of;
use crate::specimen::Specimen;
use vstd::arithmetic::power2::lemma_pow2_pos;

verus! {

// ---- sums ----

/// `f(0) + .. + f(n - 1)`
pub open spec fn total(f: spec_fn(int) -> int, n: nat) -> int
    decreases n,
{
    if n == 0 {
        0
    } else {
        total(f, (n - 1) as nat) + f(n - 1)
    }
}

proof fn lemma_same(f: spec_fn(int) -> int, g: spec_fn(int) -> int, n: nat)
    requires
        forall|i: int| 0 <= i < n ==> #[trigger] f(i) == g(i),
    ensures
        total(f, n) == total(g, n),
    decreases n,
{
    if n > 0 {
        lemma_same(f, g, (n - 1) as nat);
        assert(f(n - 1) == g(n - 1));
    }
}

proof fn lemma_scale(c: int, f: spec_fn(int) -> int, n: nat)
    ensures
        total(|i: int| c * f(i), n) == c * total(f, n),
    decreases n,
{
    if n > 0 {
        lemma_scale(c, f, (n - 1) as nat);
        let t = total(f, (n - 1) as nat);
        let x = f(n - 1);
        assert(c * t + c * x == c * (t + x)) by (nonlinear_arith);
    } else {
        assert(c * 0 == 0);
    }
}

proof fn lemma_plus(f: spec_fn(int) -> int, g: spec_fn(int) -> int, n: nat)
    ensures
        total(|i: int| f(i) + g(i), n) == total(f, n) + total(g, n),
    decreases n,
{
    if n > 0 {
        lemma_plus(f, g, (n - 1) as nat);
    }
}

/// The order of two sums can be changed.
proof fn lemma_swap(f: spec_fn(int, int) -> int, n: nat, m: nat)
    ensures
        total(|i: int| total(|j: int| f(i, j), m), n) == total(
            |j: int| total(|i: int| f(i, j), n),
            m,
        ),
    decreases n,
{
    let rows = |i: int| total(|j: int| f(i, j), m);
    let columns = |k: nat| (|j: int| total(|i: int| f(i, j), k));
    if n == 0 {
        assert forall|j: int| 0 <= j < m implies #[trigger] columns(0)(j) == 0 by {}
        lemma_zero(columns(0), m);
    } else {
        let k = (n - 1) as nat;
        lemma_swap(f, k, m);
        let last = |j: int| f(n - 1, j);
        lemma_plus(columns(k), last, m);
        let both = |j: int| columns(k)(j) + last(j);
        assert forall|j: int| 0 <= j < m implies #[trigger] columns(n)(j) == both(j) by {}
        lemma_same(columns(n), both, m);
        assert(rows(n - 1) == total(last, m));
    }
}

proof fn lemma_zero(f: spec_fn(int) -> int, n: nat)
    requires
        forall|i: int| 0 <= i < n ==> #[trigger] f(i) == 0,
    ensures
        total(f, n) == 0,
    decreases n,
{
    if n > 0 {
        lemma_zero(f, (n - 1) as nat);
        assert(f(n - 1) == 0);
    }
}

proof fn lemma_term(f: spec_fn(int) -> int, n: nat, k: int)
    requires
        0 <= k < n,
        forall|i: int| 0 <= i < n ==> 0 <= #[trigger] f(i),
    ensures
        0 <= f(k) <= total(f, n),
        0 <= total(f, n),
    decreases n,
{
    assert(0 <= f(n - 1));
    assert(0 <= f(k));
    assert(total(f, 0) == 0);
    if n > 1 {
        lemma_term(f, (n - 1) as nat, if k < n - 1 { k } else { 0 });
    }
}

// ---- exact matrices ----

/// The products of two columns, summed over the rows.
pub open spec fn gram(x: Seq<Seq<int>>, i: int, j: int) -> int {
    total(|k: int| x[k][i] * x[k][j], x.len())
}

/// What the matrix `n` of order `p` makes of two rows.
pub open spec fn hat(n: Seq<Seq<int>>, a: Seq<int>, b: Seq<int>, p: nat) -> int {
    total(|i: int| total(|j: int| a[i] * n[i][j] * b[j], p), p)
}

/// Whether the symmetric matrix `n` is the inverse, `d` times, of the products of the columns.
pub open spec fn inverts(n: Seq<Seq<int>>, x: Seq<Seq<int>>, p: nat, d: int) -> bool {
    &&& forall|i: int, j: int|
        0 <= i < p && 0 <= j < p ==> #[trigger] n[i][j] == n[j][i]
    &&& forall|i: int, l: int|
        0 <= i < p && 0 <= l < p ==> #[trigger] row_product(n, x, p, i, l) == (if i == l {
            d
        } else {
            0
        })
}

/// An entry of the product of `n` with the products of the columns.
pub open spec fn row_product(n: Seq<Seq<int>>, x: Seq<Seq<int>>, p: nat, i: int, l: int) -> int {
    total(|j: int| n[i][j] * gram(x, j, l), p)
}

proof fn lemma_gram_symmetric(x: Seq<Seq<int>>, i: int, j: int)
    ensures
        gram(x, i, j) == gram(x, j, i),
{
    let f = |k: int| x[k][i] * x[k][j];
    let g = |k: int| x[k][j] * x[k][i];
    assert forall|k: int| 0 <= k < x.len() implies #[trigger] f(k) == g(k) by {
        let a = x[k][i];
        let b = x[k][j];
        assert(a * b == b * a) by (nonlinear_arith);
    }
    lemma_same(f, g, x.len());
}

proof fn lemma_constant_total(d: int, p: nat)
    ensures
        total(|i: int| d, p) == p * d,
    decreases p,
{
    if p > 0 {
        lemma_constant_total(d, (p - 1) as nat);
        assert(p * d == (p - 1) * d + d) by (nonlinear_arith);
    } else {
        assert(0 * d == 0);
    }
}

/// What the inverse makes of the rows with themselves adds up to its order.
proof fn lemma_trace(n: Seq<Seq<int>>, x: Seq<Seq<int>>, p: nat, d: int)
    requires
        inverts(n, x, p, d),
    ensures
        total(|k: int| hat(n, x[k], x[k], p), x.len()) == p * d,
{
    let m = x.len();
    let f = |k: int, i: int, j: int| x[k][i] * n[i][j] * x[k][j];
    let g = |k: int, i: int| total(|j: int| f(k, i, j), p);
    let start = |k: int| hat(n, x[k], x[k], p);
    let step = |k: int| total(|i: int| g(k, i), p);
    assert forall|k: int| 0 <= k < m implies #[trigger] start(k) == step(k) by {
        let a = |i: int| total(|j: int| x[k][i] * n[i][j] * x[k][j], p);
        let b = |i: int| g(k, i);
        assert forall|i: int| 0 <= i < p implies #[trigger] a(i) == b(i) by {
            let u = |j: int| x[k][i] * n[i][j] * x[k][j];
            let v = |j: int| f(k, i, j);
            lemma_same(u, v, p);
        }
        lemma_same(a, b, p);
    }
    lemma_same(start, step, m);
    lemma_swap(g, m, p);
    let turned = |i: int| total(|k: int| g(k, i), m);
    let flat = |i: int| d;
    assert forall|i: int| 0 <= i < p implies #[trigger] turned(i) == flat(i) by {
        let fi = |k: int, j: int| f(k, i, j);
        lemma_swap(fi, m, p);
        let a = |k: int| g(k, i);
        let b = |k: int| total(|j: int| fi(k, j), p);
        assert forall|k: int| 0 <= k < m implies #[trigger] a(k) == b(k) by {
            let u = |j: int| f(k, i, j);
            let v = |j: int| fi(k, j);
            lemma_same(u, v, p);
        }
        lemma_same(a, b, m);
        let c = |j: int| total(|k: int| fi(k, j), m);
        let e = |j: int| n[i][j] * gram(x, j, i);
        assert forall|j: int| 0 <= j < p implies #[trigger] c(j) == e(j) by {
            let y = n[i][j];
            let u = |k: int| fi(k, j);
            let w = |k: int| x[k][i] * x[k][j];
            let v = |k: int| y * w(k);
            assert forall|k: int| 0 <= k < m implies #[trigger] u(k) == v(k) by {
                let s = x[k][i];
                let t = x[k][j];
                assert(s * y * t == y * (s * t)) by (nonlinear_arith);
            }
            lemma_same(u, v, m);
            lemma_scale(y, w, m);
            lemma_gram_symmetric(x, i, j);
        }
        lemma_same(c, e, p);
        assert(row_product(n, x, p, i, i) == d);
    }
    lemma_same(turned, flat, p);
    lemma_constant_total(d, p);
}

/// An entry of what the matrix makes of a row.
spec fn weight(n: Seq<Seq<int>>, row: Seq<int>, p: nat, i: int) -> int {
    total(|j: int| n[i][j] * row[j], p)
}

/// The `l`-th row against what the matrix makes of the `k`-th.
spec fn cross(n: Seq<Seq<int>>, x: Seq<Seq<int>>, p: nat, k: int, l: int) -> int {
    total(|i: int| x[l][i] * weight(n, x[k], p, i), p)
}

/// What the inverse makes of a row with itself lies between 0 and `d`.
proof fn lemma_hat_within(n: Seq<Seq<int>>, x: Seq<Seq<int>>, p: nat, d: int, k: int)
    requires
        inverts(n, x, p, d),
        0 < d,
        0 <= k < x.len(),
    ensures
        0 <= hat(n, x[k], x[k], p) <= d,
{
    let m = x.len();
    let row = x[k];
    let a = |i: int| weight(n, row, p, i);
    let h = |l: int| cross(n, x, p, k, l);
    // the rows against the k-th
    lemma_hat_row(n, x, p, k);
    assert(h(k) == hat(n, row, row, p));
    // the products of a column with these
    let b = |i: int| total(|l: int| x[l][i] * cross(n, x, p, k, l), m);
    assert forall|i: int| 0 <= i < p implies #[trigger] b(i) == d * row[i] by {
        lemma_column(n, x, p, d, k, i);
    }
    // the sum of the squares
    let squares = |l: int| h(l) * h(l);
    let g = |l: int, i: int| h(l) * (x[l][i] * a(i));
    let wide = |l: int| total(|i: int| g(l, i), p);
    assert forall|l: int| 0 <= l < m implies #[trigger] squares(l) == wide(l) by {
        let u = |i: int| x[l][i] * weight(n, x[k], p, i);
        lemma_scale(h(l), u, p);
        let v = |i: int| h(l) * u(i);
        let w = |i: int| g(l, i);
        lemma_same(v, w, p);
    }
    lemma_same(squares, wide, m);
    lemma_swap(g, m, p);
    let tall = |i: int| total(|l: int| g(l, i), m);
    let own = |i: int| row[i] * a(i);
    let scaled = |i: int| d * own(i);
    assert forall|i: int| 0 <= i < p implies #[trigger] tall(i) == scaled(i) by {
        let c = a(i);
        let u = |l: int| g(l, i);
        let w = |l: int| x[l][i] * cross(n, x, p, k, l);
        let v = |l: int| c * w(l);
        assert forall|l: int| 0 <= l < m implies #[trigger] u(l) == v(l) by {
            let s = h(l);
            let t = x[l][i];
            assert(s * (t * c) == c * (t * s)) by (nonlinear_arith);
        }
        lemma_same(u, v, m);
        lemma_scale(c, w, m);
        assert(b(i) == d * row[i]);
        let r = row[i];
        assert(c * (d * r) == d * (r * c)) by (nonlinear_arith);
    }
    lemma_same(tall, scaled, p);
    lemma_scale(d, own, p);
    let u = |i: int| x[k][i] * weight(n, x[k], p, i);
    lemma_same(own, u, p);
    let y = h(k);
    assert(total(squares, m) == d * y);
    assert forall|l: int| 0 <= l < m implies 0 <= #[trigger] squares(l) by {
        let s = h(l);
        assert(0 <= s * s) by (nonlinear_arith);
    }
    lemma_term(squares, m, k);
    assert(0 <= y <= d) by (nonlinear_arith)
        requires
            y * y <= d * y,
            0 < d,
    ;
}

/// The hat of the `k`-th row with itself by way of its products with the inverse.
proof fn lemma_hat_row(n: Seq<Seq<int>>, x: Seq<Seq<int>>, p: nat, k: int)
    ensures
        hat(n, x[k], x[k], p) == cross(n, x, p, k, k),
{
    let row = x[k];
    let f = |i: int| total(|j: int| row[i] * n[i][j] * row[j], p);
    let g = |i: int| x[k][i] * weight(n, x[k], p, i);
    assert forall|i: int| 0 <= i < p implies #[trigger] f(i) == g(i) by {
        let c = row[i];
        let w = |j: int| n[i][j] * x[k][j];
        let u = |j: int| row[i] * n[i][j] * row[j];
        let v = |j: int| c * w(j);
        assert forall|j: int| 0 <= j < p implies #[trigger] u(j) == v(j) by {
            let s = n[i][j];
            let t = row[j];
            assert(c * s * t == c * (s * t)) by (nonlinear_arith);
        }
        lemma_same(u, v, p);
        lemma_scale(c, w, p);
    }
    lemma_same(f, g, p);
}

/// The products of a column with the hats of the `k`-th row are `d` times the row's entry.
proof fn lemma_column(n: Seq<Seq<int>>, x: Seq<Seq<int>>, p: nat, d: int, k: int, i: int)
    requires
        inverts(n, x, p, d),
        0 <= k < x.len(),
        0 <= i < p,
    ensures
        total(|l: int| x[l][i] * cross(n, x, p, k, l), x.len()) == d * x[k][i],
{
    let m = x.len();
    let a = |j: int| weight(n, x[k], p, j);
    let given = |l: int| x[l][i] * cross(n, x, p, k, l);
    let g = |l: int, j: int| x[l][i] * (x[l][j] * a(j));
    let wide = |l: int| total(|j: int| g(l, j), p);
    assert forall|l: int| 0 <= l < m implies #[trigger] given(l) == wide(l) by {
        let u = |j: int| x[l][j] * a(j);
        let v = |j: int| x[l][j] * weight(n, x[k], p, j);
        lemma_same(v, u, p);
        lemma_scale(x[l][i], u, p);
        let s = |j: int| x[l][i] * u(j);
        let t = |j: int| g(l, j);
        lemma_same(s, t, p);
    }
    lemma_same(given, wide, m);
    lemma_swap(g, m, p);
    let tall = |j: int| total(|l: int| g(l, j), m);
    let q = |j: int, s: int| gram(x, i, j) * (n[j][s] * x[k][s]);
    let spread = |j: int| total(|s: int| q(j, s), p);
    assert forall|j: int| 0 <= j < p implies #[trigger] tall(j) == spread(j) by {
        let c = a(j);
        let u = |l: int| g(l, j);
        let w = |l: int| x[l][i] * x[l][j];
        let v = |l: int| c * w(l);
        assert forall|l: int| 0 <= l < m implies #[trigger] u(l) == v(l) by {
            let s = x[l][i];
            let t = x[l][j];
            assert(s * (t * c) == c * (s * t)) by (nonlinear_arith);
        }
        lemma_same(u, v, m);
        lemma_scale(c, w, m);
        let y = gram(x, i, j);
        let z = |s: int| n[j][s] * x[k][s];
        lemma_scale(y, z, p);
        let e = |s: int| y * z(s);
        let o = |s: int| q(j, s);
        lemma_same(e, o, p);
        assert(c * y == y * c) by (nonlinear_arith);
    }
    lemma_same(tall, spread, p);
    lemma_swap(q, p, p);
    let turned = |s: int| total(|j: int| q(j, s), p);
    let picked = |s: int|
        if s == i {
            d * x[k][i]
        } else {
            0
        };
    assert forall|s: int| 0 <= s < p implies #[trigger] turned(s) == picked(s) by {
        let c = x[k][s];
        let u = |j: int| q(j, s);
        let w = |j: int| n[s][j] * gram(x, j, i);
        let v = |j: int| c * w(j);
        assert forall|j: int| 0 <= j < p implies #[trigger] u(j) == v(j) by {
            lemma_gram_symmetric(x, i, j);
            assert(n[j][s] == n[s][j]);
            let e = gram(x, i, j);
            let o = n[j][s];
            assert(e * (o * c) == c * (o * e)) by (nonlinear_arith);
        }
        lemma_same(u, v, p);
        lemma_scale(c, w, p);
        assert(row_product(n, x, p, s, i) == (if s == i {
            d
        } else {
            0
        }));
        assert(c * d == d * c) by (nonlinear_arith);
        assert(c * 0 == 0);
    }
    lemma_same(turned, picked, p);
    lemma_single(picked, p, i);
}

proof fn lemma_single(f: spec_fn(int) -> int, n: nat, k: int)
    requires
        0 <= k < n,
        forall|i: int| 0 <= i < n && i != k ==> #[trigger] f(i) == 0,
    ensures
        total(f, n) == f(k),
    decreases n,
{
    let m = (n - 1) as nat;
    if k == n - 1 {
        lemma_zero(f, m);
    } else {
        lemma_single(f, m, k);
        assert(f(n - 1) == 0);
    }
}

// ---- the leverages ----

/// The values of a row, in quanta.
pub open spec fn values_of(row: Seq<Real>) -> Seq<int> {
    row.map_values(|x: Real| x.value())
}

pub open spec fn table_of(m: Seq<Seq<Real>>) -> Seq<Seq<int>> {
    m.map_values(|row: Seq<Real>| values_of(row))
}

/// The cube of 1 in quanta, which is 1 where three numbers are multiplied.
pub open spec fn unit_cube() -> int {
    one_quanta() * one_quanta() * one_quanta()
}

/// Whether the inverse of the products of the design vectors is exact.
pub open spec fn is_exact_inverse(inv: Seq<Seq<Real>>, design: Seq<Seq<Real>>) -> bool {
    inverts(table_of(inv), table_of(design), 4, unit_cube())
}

/// The leverage of a design vector, in the unit of a product of three numbers.
pub open spec fn leverage_at(inv: Seq<Seq<Real>>, row: Seq<Real>) -> int {
    form_of(inv, row, false).value() * (one_quanta() * one_quanta())
}

/// The leverage of a design vector without a rounding, in that unit.
pub open spec fn exact_leverage(inv: Seq<Seq<Real>>, row: Seq<Real>) -> int {
    hat(table_of(inv), values_of(row), values_of(row), 4)
}

/// A segment that was fitted has the leverage of one of the design vectors.
pub proof fn law_segment_has_row<M: Fn(Call) -> Real>(
    math: M,
    plan: Plan,
    specs: Seq<Specimen>,
    s: int,
    g: int,
    inv: Seq<Seq<Real>>,
)
    requires
        0 <= s < specs.len(),
        0 <= g < specs[s].segments@.len(),
        inverse_of(products_of(design_of(math, plan, specs, specs.len())), false) == Some(inv),
    ensures
        ({
            let d = design_of(math, plan, specs, specs.len());
            let seg = specs[s].segments@[g];
            exists|r: int|
                0 <= r < d.len() && leverage_of(
                    math,
                    plan,
                    specs,
                    seg.temp_kelvin,
                    plan.x_of(math, seg.stress_mpa),
                ) == form_of(inv, #[trigger] d[r], false)
        }),
{
    let r = lemma_row(math, plan, specs, specs.len(), s, g);
    let d = design_of(math, plan, specs, specs.len());
    let seg = specs[s].segments@[g];
    assert(d[r] == plan.model.grad_of(seg.temp_kelvin, plan.x_of(math, seg.stress_mpa)));
}

proof fn lemma_row<M: Fn(Call) -> Real>(
    math: M,
    plan: Plan,
    specs: Seq<Specimen>,
    k: nat,
    s: int,
    g: int,
) -> (r: int)
    requires
        0 <= s < k <= specs.len(),
        0 <= g < specs[s].segments@.len(),
    ensures
        0 <= r < design_of(math, plan, specs, k).len(),
        design_of(math, plan, specs, k)[r] == plan.model.grad_of(
            specs[s].segments@[g].temp_kelvin,
            plan.x_of(math, specs[s].segments@[g].stress_mpa),
        ),
    decreases k,
{
    let before = design_of(math, plan, specs, (k - 1) as nat);
    if s == k - 1 {
        before.len() + g
    } else {
        lemma_row(math, plan, specs, (k - 1) as nat, s, g)
    }
}

/// Where the inverse is exact, the leverages of the design vectors lie between 0 and 1 and
/// add up to the number of parameters, but for what each is off from its exact value.
pub proof fn law_leverages_add_up(inv: Seq<Seq<Real>>, design: Seq<Seq<Real>>, slack: int)
    requires
        is_exact_inverse(inv, design),
        forall|k: int|
            0 <= k < design.len() ==> size_of(
                leverage_at(inv, #[trigger] design[k]) - exact_leverage(inv, design[k]),
            ) <= slack,
    ensures
        forall|k: int|
            0 <= k < design.len() ==> -slack <= leverage_at(inv, #[trigger] design[k])
                <= unit_cube() + slack,
        size_of(
            total(|k: int| leverage_at(inv, design[k]), design.len()) - 4 * unit_cube(),
        ) <= slack * design.len(),
{
    let n = table_of(inv);
    let x = table_of(design);
    let d = unit_cube();
    let m = design.len();
    let q = one_quanta();
    lemma_pow2_pos(ONE_EXPONENT as nat);
    assert(0 < q * q * q) by (nonlinear_arith)
        requires
            0 < q,
    ;
    assert forall|k: int| 0 <= k < m implies -slack <= leverage_at(inv, #[trigger] design[k])
        <= d + slack by {
        assert(x[k] == values_of(design[k]));
        lemma_hat_within(n, x, 4, d, k);
    }
    lemma_trace(n, x, 4, d);
    let f = |k: int| leverage_at(inv, design[k]);
    let g = |k: int| hat(n, x[k], x[k], 4);
    assert forall|k: int| 0 <= k < m implies size_of(#[trigger] f(k) - g(k)) <= slack by {
        assert(x[k] == values_of(design[k]));
        assert(size_of(leverage_at(inv, design[k]) - exact_leverage(inv, design[k])) <= slack);
    }
    lemma_totals_near(f, g, m, slack);
}

proof fn lemma_totals_near(f: spec_fn(int) -> int, g: spec_fn(int) -> int, n: nat, slack: int)
    requires
        forall|k: int| 0 <= k < n ==> size_of(#[trigger] f(k) - g(k)) <= slack,
    ensures
        size_of(total(f, n) - total(g, n)) <= slack * n,
    decreases n,
{
    if n > 0 {
        lemma_totals_near(f, g, (n - 1) as nat, slack);
        assert(size_of(f(n - 1) - g(n - 1)) <= slack);
        assert(slack * n == slack * (n - 1) + slack) by (nonlinear_arith);
    } else {
        assert(slack * 0 == 0);
    }
}

} // verus!
