//! Minimisation by the simplex method of Nelder and Mead.
use vstd::prelude::*;
use crate::host::{evaluate_at, is_objective, lemma_values, models, values};
use crate::number::{fabs, fle, flt, lit, Real};
use crate::number::arith::{fadd, fdiv, fmul, fsub};
use crate::number::consts::{HALF, ONE, TWO, ZERO};
use crate::number::convert::fint;

pub mod moves;

verus! {

/// 0.1
pub const SMALL_START: u64 = 0x3fb9_9999_9999_999a;

/// 0.25
pub const QUARTER: u64 = 0x3fd0_0000_0000_0000;

/// 0.75
pub const THREE_QUARTERS: u64 = 0x3fe8_0000_0000_0000;

/// 1e-10, the spread of the values at which the search ends.
pub const SPREAD: u64 = 0x3ddb_7cdf_d9d7_bdbb;

/// The rows of a table.
pub open spec fn rows(v: Seq<Vec<Real>>) -> Seq<Seq<Real>> {
    v.map_values(|r: Vec<Real>| r@)
}

/// The corners of a simplex, and the values there.
pub struct Shape {
    pub xs: Seq<Seq<Real>>,
    pub fv: Seq<Real>,
}

/// A simplex of `n` dimensions with the values of `f` at its corners.
pub open spec fn is_shape(f: spec_fn(Seq<Real>) -> Real, s: Shape, n: nat) -> bool {
    &&& 0 < n
    &&& s.xs.len() == n + 1
    &&& s.fv.len() == n + 1
    &&& forall|i: int| 0 <= i <= n ==> (#[trigger] s.xs[i]).len() == n
    &&& forall|i: int| 0 <= i <= n ==> (#[trigger] s.fv[i]) == f(s.xs[i])
}

// ---- the order of the corners ----

/// `order` with corner `k` put behind every corner whose value is not above its own.
pub open spec fn place(order: Seq<usize>, fv: Seq<Real>, k: usize) -> Seq<usize>
    decreases order.len(),
{
    if order.len() > 0 && flt(fv[k as int], fv[order.last() as int]) {
        place(order.drop_last(), fv, k).push(order.last())
    } else {
        order.push(k)
    }
}

/// The first `k` corners from the least value to the greatest, equals in their order.
pub open spec fn order_of(fv: Seq<Real>, k: nat) -> Seq<usize>
    decreases k,
{
    if k == 0 {
        Seq::empty()
    } else {
        place(order_of(fv, (k - 1) as nat), fv, (k - 1) as usize)
    }
}

proof fn lemma_place(order: Seq<usize>, fv: Seq<Real>, k: usize)
    requires
        order.no_duplicates(),
        forall|i: int| 0 <= i < order.len() ==> (#[trigger] order[i]) < k,
    ensures
        place(order, fv, k).len() == order.len() + 1,
        place(order, fv, k).no_duplicates(),
        forall|i: int| 0 <= i <= order.len() ==> (#[trigger] place(order, fv, k)[i]) <= k,
        forall|x: usize| #[trigger] place(order, fv, k).contains(x) ==> order.contains(x) || x == k,
    decreases order.len(),
{
    let r = place(order, fv, k);
    if order.len() > 0 && flt(fv[k as int], fv[order.last() as int]) {
        let front = order.drop_last();
        lemma_place(front, fv, k);
        let p = place(front, fv, k);
        assert forall|x: usize| #[trigger] r.contains(x) implies order.contains(x) || x == k by {
            let i = choose|i: int| 0 <= i < r.len() && r[i] == x;
            if i < p.len() {
                assert(p[i] == x);
                assert(p.contains(x));
                if front.contains(x) {
                    let a = choose|a: int| 0 <= a < front.len() && front[a] == x;
                    assert(order[a] == x);
                }
            } else {
                assert(order[order.len() - 1] == x);
            }
        }
        assert forall|i: int, j: int| 0 <= i < r.len() && 0 <= j < r.len() && i != j implies r[i] != r[j] by {
            if i == p.len() {
                assert(p.contains(p[j]));
                if front.contains(p[j]) {
                    let a = choose|a: int| 0 <= a < front.len() && front[a] == p[j];
                    assert(order[a] == p[j]);
                }
            } else if j == p.len() {
                assert(p.contains(p[i]));
                if front.contains(p[i]) {
                    let a = choose|a: int| 0 <= a < front.len() && front[a] == p[i];
                    assert(order[a] == p[i]);
                }
            }
        }
        assert forall|i: int| 0 <= i <= order.len() implies (#[trigger] r[i]) <= k by {
            if i < p.len() {
                assert(r[i] == p[i]);
            }
        }
    } else {
        assert forall|x: usize| #[trigger] r.contains(x) implies order.contains(x) || x == k by {
            let i = choose|i: int| 0 <= i < r.len() && r[i] == x;
            if i < order.len() {
                assert(order[i] == x);
            }
        }
    }
}

/// The order holds each of the first `k` corners once.
pub proof fn lemma_order(fv: Seq<Real>, k: nat)
    requires
        k <= usize::MAX,
    ensures
        order_of(fv, k).len() == k,
        order_of(fv, k).no_duplicates(),
        forall|i: int| 0 <= i < k ==> (#[trigger] order_of(fv, k)[i]) < k,
    decreases k,
{
    if k > 0 {
        lemma_order(fv, (k - 1) as nat);
        lemma_place(order_of(fv, (k - 1) as nat), fv, (k - 1) as usize);
    }
}

pub open spec fn all_numbers(fv: Seq<Real>) -> bool {
    forall|i: int| 0 <= i < fv.len() ==> !(#[trigger] fv[i]).nan()
}

proof fn lemma_place_sorted(order: Seq<usize>, fv: Seq<Real>, k: usize)
    requires
        all_numbers(fv),
        k < fv.len(),
        forall|i: int| 0 <= i < order.len() ==> (#[trigger] order[i]) < k,
        forall|i: int, j: int|
            0 <= i <= j < order.len() ==> fle(
                fv[(#[trigger] order[i]) as int],
                fv[(#[trigger] order[j]) as int],
            ),
    ensures
        forall|i: int, j: int|
            0 <= i <= j < place(order, fv, k).len() ==> fle(
                fv[(#[trigger] place(order, fv, k)[i]) as int],
                fv[(#[trigger] place(order, fv, k)[j]) as int],
            ),
        forall|i: int|
            0 <= i < place(order, fv, k).len() ==> (#[trigger] place(order, fv, k)[i] == k
                || exists|a: int| 0 <= a < order.len() && order[a] == place(order, fv, k)[i]),
    decreases order.len(),
{
    let r = place(order, fv, k);
    if order.len() > 0 && flt(fv[k as int], fv[order.last() as int]) {
        let front = order.drop_last();
        assert forall|i: int, j: int| 0 <= i <= j < front.len() implies fle(
            fv[(#[trigger] front[i]) as int],
            fv[(#[trigger] front[j]) as int],
        ) by {
            assert(front[i] == order[i] && front[j] == order[j]);
        }
        lemma_place_sorted(front, fv, k);
        let p = place(front, fv, k);
        assert forall|i: int| 0 <= i < r.len() implies (#[trigger] r[i] == k || exists|a: int|
            0 <= a < order.len() && order[a] == r[i]) by {
            if i < p.len() {
                assert(r[i] == p[i]);
                if p[i] != k {
                    let a = choose|a: int| 0 <= a < front.len() && front[a] == p[i];
                    assert(order[a] == r[i]);
                }
            } else {
                assert(order[order.len() - 1] == r[i]);
            }
        }
        assert forall|i: int, j: int| 0 <= i <= j < r.len() implies fle(
            fv[(#[trigger] r[i]) as int],
            fv[(#[trigger] r[j]) as int],
        ) by {
            if j < p.len() {
                assert(r[i] == p[i] && r[j] == p[j]);
            } else if i < p.len() {
                assert(r[i] == p[i]);
                if p[i] != k {
                    let a = choose|a: int| 0 <= a < front.len() && front[a] == p[i];
                    assert(order[a] == p[i]);
                }
            }
        }
    } else {
        assert forall|i: int| 0 <= i < r.len() implies (#[trigger] r[i] == k || exists|a: int|
            0 <= a < order.len() && order[a] == r[i]) by {
            if i < order.len() {
                assert(order[i] == r[i]);
            }
        }
        assert forall|i: int, j: int| 0 <= i <= j < r.len() implies fle(
            fv[(#[trigger] r[i]) as int],
            fv[(#[trigger] r[j]) as int],
        ) by {
            if j < order.len() {
                assert(r[i] == order[i] && r[j] == order[j]);
            } else if i < order.len() {
                assert(r[i] == order[i]);
                assert(fle(fv[order[i] as int], fv[order[order.len() - 1] as int]));
            }
        }
    }
}

/// Where every value is a number, the order is by value.
pub proof fn lemma_order_sorted(fv: Seq<Real>, k: nat)
    requires
        all_numbers(fv),
        k <= fv.len() <= usize::MAX,
    ensures
        forall|i: int, j: int|
            0 <= i <= j < k ==> fle(
                fv[(#[trigger] order_of(fv, k)[i]) as int],
                fv[(#[trigger] order_of(fv, k)[j]) as int],
            ),
    decreases k,
{
    lemma_order(fv, k);
    if k > 0 {
        lemma_order(fv, (k - 1) as nat);
        lemma_order_sorted(fv, (k - 1) as nat);
        lemma_place_sorted(order_of(fv, (k - 1) as nat), fv, (k - 1) as usize);
    }
}

/// The corners from the least value to the greatest.
fn sort_corners(fv: &Vec<Real>) -> (order: Vec<usize>)
    ensures
        order@ == order_of(fv@, fv@.len()),
        order@.len() == fv@.len(),
        forall|i: int| 0 <= i < order@.len() ==> (#[trigger] order@[i]) < fv@.len(),
{
    let mut order: Vec<usize> = Vec::new();
    let mut k: usize = 0;
    while k < fv.len()
        invariant
            k <= fv.len(),
            order@ == order_of(fv@, k as nat),
        decreases fv.len() - k,
    {
        proof {
            lemma_order(fv@, k as nat);
        }
        let mut j: usize = order.len();
        let ghost all = order@;
        proof {
            assert(all.take(j as int) =~= all);
            assert(all.skip(j as int) =~= Seq::<usize>::empty());
            assert(place(all, fv@, k) =~= place(all.take(j as int), fv@, k) + all.skip(j as int));
        }
        while j > 0 && fv[k].lt(fv[order[j - 1]])
            invariant
                k < fv.len(),
                order@ == all,
                all.len() == k,
                forall|i: int| 0 <= i < k ==> (#[trigger] all[i]) < k,
                j <= all.len(),
                place(all, fv@, k) == place(all.take(j as int), fv@, k) + all.skip(j as int),
            decreases j,
        {
            proof {
                let t = all.take(j as int);
                assert(t.last() == all[j - 1]);
                assert(t.drop_last() =~= all.take(j - 1));
                assert(place(all.take(j - 1), fv@, k).push(all[j - 1]) + all.skip(j as int)
                    =~= place(all.take(j - 1), fv@, k) + all.skip(j - 1));
            }
            j = j - 1;
        }
        order.insert(j, k);
        proof {
            let t = all.take(j as int);
            if j > 0 {
                assert(t.last() == all[j - 1]);
            }
            assert(place(t, fv@, k) == t.push(k));
            assert(order@ =~= t.push(k) + all.skip(j as int));
        }
        k = k + 1;
    }
    proof {
        lemma_order(fv@, fv@.len());
    }
    order
}

/// The first corner with the least of the first `k` values.
pub open spec fn best_of(fv: Seq<Real>, k: nat) -> int
    decreases k,
{
    if k <= 1 {
        0
    } else {
        let b = best_of(fv, (k - 1) as nat);
        if flt(fv[k - 1], fv[b]) {
            k - 1
        } else {
            b
        }
    }
}

fn best_corner(fv: &Vec<Real>) -> (r: usize)
    requires
        fv@.len() > 0,
    ensures
        r == best_of(fv@, fv@.len()),
        r < fv@.len(),
{
    let mut b: usize = 0;
    let mut i: usize = 1;
    while i < fv.len()
        invariant
            1 <= i <= fv.len(),
            b == best_of(fv@, i as nat),
            b < i,
        decreases fv.len() - i,
    {
        if fv[i].lt(fv[b]) {
            b = i;
        }
        i = i + 1;
    }
    b
}

proof fn lemma_best(fv: Seq<Real>, k: nat)
    requires
        0 < k <= fv.len(),
        all_numbers(fv),
    ensures
        0 <= best_of(fv, k) < k,
        forall|i: int| 0 <= i < k ==> fle(fv[best_of(fv, k)], #[trigger] fv[i]),
    decreases k,
{
    if k > 1 {
        lemma_best(fv, (k - 1) as nat);
    }
}

// ---- points ----

/// Combines two points coordinate by coordinate.
pub fn zip<G: Fn(Real, Real) -> Real>(a: &Vec<Real>, b: &Vec<Real>, g: G) -> (r: Vec<Real>)
    requires
        a@.len() == b@.len(),
        forall|x: Real, y: Real| call_requires(g, (x, y)),
    ensures
        r@.len() == a@.len(),
        forall|j: int| 0 <= j < a@.len() ==> call_ensures(g, (a@[j], b@[j]), #[trigger] r@[j]),
{
    let mut r: Vec<Real> = Vec::new();
    let mut j: usize = 0;
    while j < a.len()
        invariant
            a@.len() == b@.len(),
            forall|x: Real, y: Real| call_requires(g, (x, y)),
            j <= a.len(),
            r@.len() == j,
            forall|i: int| 0 <= i < j ==> call_ensures(g, (a@[i], b@[i]), #[trigger] r@[i]),
        decreases a.len() - j,
    {
        r.push(g(a[j], b[j]));
        j = j + 1;
    }
    r
}

pub fn copy(a: &Vec<Real>) -> (r: Vec<Real>)
    ensures
        r@ == a@,
{
    let mut r: Vec<Real> = Vec::new();
    let mut j: usize = 0;
    while j < a.len()
        invariant
            j <= a.len(),
            r@ == a@.take(j as int),
        decreases a.len() - j,
    {
        r.push(a[j]);
        proof {
            assert(a@.take(j + 1) =~= a@.take(j as int).push(a@[j as int]));
        }
        j = j + 1;
    }
    proof {
        assert(a@.take(a@.len() as int) =~= a@);
    }
    r
}

/// `base` and the points that differ from it by `nudge` in one coordinate each, up to the
/// `k`-th coordinate.
pub open spec fn start_points(base: Seq<Real>, nudge: spec_fn(Real) -> Real, k: nat) -> Seq<Seq<Real>> {
    Seq::new(
        k + 1,
        |i: int|
            if i == 0 {
                base
            } else {
                base.update(i - 1, nudge(base[i - 1]))
            },
    )
}

/// The simplex from which a search starts, with the values at its corners.
pub open spec fn start_shape(
    f: spec_fn(Seq<Real>) -> Real,
    base: Seq<Real>,
    nudge: spec_fn(Real) -> Real,
) -> Shape {
    let xs = start_points(base, nudge, base.len());
    Shape { xs, fv: xs.map_values(|x: Seq<Real>| f(x)) }
}

fn start<F: Fn(&Vec<Real>) -> Real, G: Fn(Real) -> Real>(
    f: &F,
    base: &Vec<Real>,
    step: G,
    Ghost(nudge): Ghost<spec_fn(Real) -> Real>,
    Ghost(field): Ghost<spec_fn(Seq<Real>) -> Real>,
) -> (r: (Vec<Vec<Real>>, Vec<Real>))
    requires
        models(*f, field, base@.len()),
        0 < base@.len() < usize::MAX,
        forall|x: Real| call_requires(step, (x,)),
        forall|x: Real, y: Real| call_ensures(step, (x,), y) ==> y == nudge(x),
    ensures
        rows(r.0@) == start_shape(field, base@, nudge).xs,
        r.1@ == start_shape(field, base@, nudge).fv,
        is_shape(field, start_shape(field, base@, nudge), base@.len()),
{
    let n: usize = base.len();
    let mut xs: Vec<Vec<Real>> = Vec::new();
    let mut fv: Vec<Real> = Vec::new();
    fv.push(evaluate_at(f, base, Ghost(field)));
    xs.push(copy(base));
    let ghost want = start_shape(field, base@, nudge);
    let mut i: usize = 0;
    while i < n
        invariant
            n == base@.len(),
            i <= n,
            models(*f, field, base@.len()),
            want == start_shape(field, base@, nudge),
            forall|x: Real| call_requires(step, (x,)),
            forall|x: Real, y: Real| call_ensures(step, (x,), y) ==> y == nudge(x),
            xs@.len() == i + 1,
            fv@.len() == i + 1,
            forall|k: int| 0 <= k <= i ==> (#[trigger] xs@[k])@ == want.xs[k],
            forall|k: int| 0 <= k <= i ==> #[trigger] fv@[k] == want.fv[k],
        decreases n - i,
    {
        let mut v: Vec<Real> = copy(base);
        v.set(i, step(base[i]));
        proof {
            assert(v@ =~= want.xs[i + 1]);
        }
        fv.push(evaluate_at(f, &v, Ghost(field)));
        xs.push(v);
        i = i + 1;
    }
    proof {
        assert(rows(xs@) =~= want.xs);
        assert(fv@ =~= want.fv);
    }
    (xs, fv)
}

/// The simplex with one corner replaced.
pub open spec fn replaced(s: Shape, i: int, x: Seq<Real>, v: Real) -> Shape {
    Shape { xs: s.xs.update(i, x), fv: s.fv.update(i, v) }
}

/// The point on the way from `a` to `b` at `part` of the way.
pub open spec fn toward(a: Seq<Real>, b: Seq<Real>, part: Real) -> Seq<Real> {
    Seq::new(a.len(), |j: int| fadd(a[j], fmul(part, fsub(b[j], a[j]))))
}

/// The simplex with every corner but `lo` drawn towards it.
pub open spec fn shrunk(f: spec_fn(Seq<Real>) -> Real, s: Shape, lo: int, part: Real) -> Shape {
    let xs = Seq::new(
        s.xs.len(),
        |i: int|
            if i == lo {
                s.xs[lo]
            } else {
                toward(s.xs[lo], s.xs[i], part)
            },
    );
    Shape {
        xs,
        fv: Seq::new(
            s.fv.len(),
            |i: int|
                if i == lo {
                    s.fv[lo]
                } else {
                    f(xs[i])
                },
        ),
    }
}

fn shrink<F: Fn(&Vec<Real>) -> Real>(
    f: &F,
    xs: &mut Vec<Vec<Real>>,
    fv: &mut Vec<Real>,
    lo: usize,
    part: Real,
    Ghost(field): Ghost<spec_fn(Seq<Real>) -> Real>,
)
    requires
        models(*f, field, old(xs)@[lo as int]@.len()),
        old(xs)@.len() == old(fv)@.len(),
        lo < old(xs)@.len(),
        forall|i: int| 0 <= i < old(xs)@.len() ==> (#[trigger] old(xs)@[i])@.len() == old(xs)@[lo as int]@.len(),
    ensures
        (Shape { xs: rows(final(xs)@), fv: final(fv)@ }) == shrunk(
            field,
            (Shape { xs: rows(old(xs)@), fv: old(fv)@ }),
            lo as int,
            part,
        ),
{
    let ghost s = Shape { xs: rows(xs@), fv: fv@ };
    let ghost want = shrunk(field, s, lo as int, part);
    let base: Vec<Real> = copy(&xs[lo]);
    let mut i: usize = 0;
    while i < xs.len()
        invariant
            models(*f, field, base@.len()),
            xs@.len() == s.xs.len(),
            fv@.len() == s.fv.len(),
            xs@.len() == fv@.len(),
            lo < xs@.len(),
            want == shrunk(field, s, lo as int, part),
            base@ == s.xs[lo as int],
            i <= xs@.len(),
            forall|k: int| 0 <= k < s.xs.len() ==> (#[trigger] s.xs[k]).len() == base@.len(),
            forall|k: int| 0 <= k < i ==> (#[trigger] xs@[k])@ == want.xs[k],
            forall|k: int| 0 <= k < i ==> #[trigger] fv@[k] == want.fv[k],
            forall|k: int| i <= k < s.xs.len() ==> (#[trigger] xs@[k])@ == s.xs[k],
            forall|k: int| i <= k < s.fv.len() ==> #[trigger] fv@[k] == s.fv[k],
        decreases xs@.len() - i,
    {
        if i != lo {
            proof {
                assert(xs@[i as int]@ == s.xs[i as int]);
            }
            let step = |a: Real, b: Real| -> (r: Real)
                ensures r == fadd(a, fmul(part, fsub(b, a)))
            {
                a.plus(part.times(b.minus(a)))
            };
            let x: Vec<Real> = zip(&base, &xs[i], step);
            proof {
                assert(x@ =~= want.xs[i as int]);
            }
            let v: Real = evaluate_at(f, &x, Ghost(field));
            fv.set(i, v);
            xs.set(i, x);
        }
        i = i + 1;
    }
    proof {
        assert(rows(xs@) =~= want.xs);
        assert(fv@ =~= want.fv);
    }
}

/// The sum of one coordinate over the first `k` corners of `order`.
pub open spec fn column(xs: Seq<Seq<Real>>, order: Seq<usize>, k: nat, j: int) -> Real
    decreases k,
{
    if k == 0 {
        lit(ZERO)
    } else {
        fadd(column(xs, order, (k - 1) as nat, j), xs[order[k - 1] as int][j])
    }
}

/// The mean of the first `n` corners of `order`.
pub open spec fn centroid(xs: Seq<Seq<Real>>, order: Seq<usize>, n: nat) -> Seq<Real> {
    Seq::new(n, |j: int| fdiv(column(xs, order, n, j), fint(n as int)))
}

fn centre(xs: &Vec<Vec<Real>>, order: &Vec<usize>, n: usize) -> (c: Vec<Real>)
    requires
        n <= order@.len(),
        forall|i: int| 0 <= i < order@.len() ==> (#[trigger] order@[i]) < xs@.len(),
        forall|i: int| 0 <= i < xs@.len() ==> (#[trigger] xs@[i])@.len() == n,
    ensures
        c@ == centroid(rows(xs@), order@, n as nat),
{
    let mut c: Vec<Real> = Vec::new();
    let count: Real = Real::from_count(n as u64);
    let mut j: usize = 0;
    while j < n
        invariant
            j <= n,
            n <= order@.len(),
            count == fint(n as int),
            forall|i: int| 0 <= i < order@.len() ==> (#[trigger] order@[i]) < xs@.len(),
            forall|i: int| 0 <= i < xs@.len() ==> (#[trigger] xs@[i])@.len() == n,
            c@.len() == j,
            forall|i: int| 0 <= i < j ==> #[trigger] c@[i] == centroid(rows(xs@), order@, n as nat)[i],
        decreases n - j,
    {
        let mut sum: Real = lit(ZERO);
        let mut k: usize = 0;
        while k < n
            invariant
                k <= n,
                j < n,
                n <= order@.len(),
                forall|i: int| 0 <= i < order@.len() ==> (#[trigger] order@[i]) < xs@.len(),
                forall|i: int| 0 <= i < xs@.len() ==> (#[trigger] xs@[i])@.len() == n,
                sum == column(rows(xs@), order@, k as nat, j as int),
            decreases n - k,
        {
            sum = sum.plus(xs[order[k]][j]);
            k = k + 1;
        }
        c.push(sum.over(count));
        j = j + 1;
    }
    proof {
        assert(c@ =~= centroid(rows(xs@), order@, n as nat));
    }
    c
}

// ---- the search with coefficients that depend on the dimension ----

pub open spec fn gamma(n: nat) -> Real {
    fadd(lit(ONE), fdiv(lit(TWO), fint(n as int)))
}

pub open spec fn rho(n: nat) -> Real {
    fsub(lit(THREE_QUARTERS), fdiv(lit(ONE), fmul(lit(TWO), fint(n as int))))
}

pub open spec fn sigma(n: nat) -> Real {
    fsub(lit(ONE), fdiv(lit(ONE), fint(n as int)))
}

pub open spec fn adaptive_nudge() -> spec_fn(Real) -> Real {
    |x: Real|
        fadd(
            x,
            if flt(lit(SMALL_START), fabs(x)) {
                lit(SMALL_START)
            } else {
                lit(QUARTER)
            },
        )
}

/// The reflection of `h` at `c`.
pub open spec fn mirror(c: Real, h: Real) -> Real {
    fadd(c, fmul(lit(ONE), fsub(c, h)))
}

/// The point at `part` of the way from `c` to the reflection of `h`.
pub open spec fn beyond(c: Seq<Real>, h: Seq<Real>, part: Real) -> Seq<Real> {
    Seq::new(c.len(), |j: int| fadd(c[j], fmul(part, fsub(mirror(c[j], h[j]), c[j]))))
}

/// The point at `part` of the way from `c` back to `h`.
pub open spec fn inside(c: Seq<Real>, h: Seq<Real>, part: Real) -> Seq<Real> {
    Seq::new(c.len(), |j: int| fsub(c[j], fmul(part, fsub(c[j], h[j]))))
}

/// One step of the search; `None` where the values are as good as equal.
pub open spec fn adaptive_step(f: spec_fn(Seq<Real>) -> Real, s: Shape, n: nat) -> Option<Shape> {
    let order = order_of(s.fv, n + 1);
    let lo = order[0] as int;
    let hi = order[n as int] as int;
    if flt(fsub(s.fv[hi], s.fv[lo]), lit(SPREAD)) {
        None
    } else {
        let c = centroid(s.xs, order, n);
        let h = s.xs[hi];
        let xr = Seq::new(n, |j: int| mirror(c[j], h[j]));
        let fr = f(xr);
        let xe = beyond(c, h, gamma(n));
        let xc = beyond(c, h, rho(n));
        let xi = inside(c, h, rho(n));
        Some(
            if flt(fr, s.fv[lo]) {
                if flt(f(xe), fr) {
                    replaced(s, hi, xe, f(xe))
                } else {
                    replaced(s, hi, xr, fr)
                }
            } else if flt(fr, s.fv[order[n - 1] as int]) {
                replaced(s, hi, xr, fr)
            } else if flt(fr, s.fv[hi]) {
                if flt(f(xc), fr) {
                    replaced(s, hi, xc, f(xc))
                } else {
                    shrunk(f, s, lo, sigma(n))
                }
            } else if flt(f(xi), s.fv[hi]) {
                replaced(s, hi, xi, f(xi))
            } else {
                shrunk(f, s, lo, sigma(n))
            },
        )
    }
}

fn put(xs: &mut Vec<Vec<Real>>, fv: &mut Vec<Real>, i: usize, x: Vec<Real>, v: Real)
    requires
        i < old(xs)@.len(),
        i < old(fv)@.len(),
    ensures
        (Shape { xs: rows(final(xs)@), fv: final(fv)@ }) == replaced(
            (Shape { xs: rows(old(xs)@), fv: old(fv)@ }),
            i as int,
            x@,
            v,
        ),
{
    xs.set(i, x);
    fv.set(i, v);
    proof {
        assert(rows(xs@) =~= rows(old(xs)@).update(i as int, x@));
    }
}

/// One step of the search; `false` where the search has ended.
fn adaptive_move<F: Fn(&Vec<Real>) -> Real>(
    f: &F,
    xs: &mut Vec<Vec<Real>>,
    fv: &mut Vec<Real>,
    Ghost(field): Ghost<spec_fn(Seq<Real>) -> Real>,
) -> (r: bool)
    requires
        models(*f, field, (old(xs)@.len() - 1) as nat),
        is_shape(field, (Shape { xs: rows(old(xs)@), fv: old(fv)@ }), (old(xs)@.len() - 1) as nat),
    ensures
        ({
            let s = Shape { xs: rows(old(xs)@), fv: old(fv)@ };
            let t = Shape { xs: rows(final(xs)@), fv: final(fv)@ };
            match adaptive_step(field, s, (old(xs)@.len() - 1) as nat) {
                None => !r && t == s,
                Some(u) => r && t == u,
            }
        }),
{
    let n: usize = xs.len() - 1;
    let ghost s = Shape { xs: rows(xs@), fv: fv@ };
    proof {
        assert forall|i: int| 0 <= i < xs@.len() implies (#[trigger] xs@[i])@.len() == n by {
            assert(s.xs[i] == xs@[i]@);
        }
    }
    let order: Vec<usize> = sort_corners(fv);
    let lo: usize = order[0];
    let hi: usize = order[n];
    if fv[hi].minus(fv[lo]).lt(lit(SPREAD)) {
        return false;
    }
    let c: Vec<Real> = centre(xs, &order, n);
    let count: Real = Real::from_count(n as u64);
    let g: Real = lit(ONE).plus(lit(TWO).over(count));
    let rh: Real = lit(THREE_QUARTERS).minus(lit(ONE).over(lit(TWO).times(count)));
    let sg: Real = lit(ONE).minus(lit(ONE).over(count));
    let ghost h = s.xs[hi as int];
    let xr_at = |c: Real, h: Real| -> (r: Real)
        ensures r == mirror(c, h)
    {
        c.plus(lit(ONE).times(c.minus(h)))
    };
    let xr: Vec<Real> = zip(&c, &xs[hi], xr_at);
    proof {
        assert(xr@ =~= Seq::new(n as nat, |j: int| mirror(c@[j], h[j])));
    }
    let fr: Real = evaluate_at(f, &xr, Ghost(field));
    if fr.lt(fv[lo]) {
        let xe_at = |c: Real, h: Real| -> (r: Real)
            ensures r == fadd(c, fmul(g, fsub(mirror(c, h), c)))
        {
            let m: Real = c.plus(lit(ONE).times(c.minus(h)));
            c.plus(g.times(m.minus(c)))
        };
        let xe: Vec<Real> = zip(&c, &xs[hi], xe_at);
        proof {
            assert(xe@ =~= beyond(c@, h, gamma(n as nat)));
        }
        let fe: Real = evaluate_at(f, &xe, Ghost(field));
        if fe.lt(fr) {
            put(xs, fv, hi, xe, fe);
        } else {
            put(xs, fv, hi, xr, fr);
        }
    } else if fr.lt(fv[order[n - 1]]) {
        put(xs, fv, hi, xr, fr);
    } else if fr.lt(fv[hi]) {
        let xc_at = |c: Real, h: Real| -> (r: Real)
            ensures r == fadd(c, fmul(rh, fsub(mirror(c, h), c)))
        {
            let m: Real = c.plus(lit(ONE).times(c.minus(h)));
            c.plus(rh.times(m.minus(c)))
        };
        let xc: Vec<Real> = zip(&c, &xs[hi], xc_at);
        proof {
            assert(xc@ =~= beyond(c@, h, rho(n as nat)));
        }
        let fc: Real = evaluate_at(f, &xc, Ghost(field));
        if fc.lt(fr) {
            put(xs, fv, hi, xc, fc);
        } else {
            shrink(f, xs, fv, lo, sg, Ghost(field));
        }
    } else {
        let xi_at = |c: Real, h: Real| -> (r: Real)
            ensures r == fsub(c, fmul(rh, fsub(c, h)))
        {
            c.minus(rh.times(c.minus(h)))
        };
        let xi: Vec<Real> = zip(&c, &xs[hi], xi_at);
        proof {
            assert(xi@ =~= inside(c@, h, rho(n as nat)));
        }
        let fc: Real = evaluate_at(f, &xi, Ghost(field));
        if fc.lt(fv[hi]) {
            put(xs, fv, hi, xi, fc);
        } else {
            shrink(f, xs, fv, lo, sg, Ghost(field));
        }
    }
    true
}

/// The simplex after at most `k` steps.
pub open spec fn adaptive_run(f: spec_fn(Seq<Real>) -> Real, s: Shape, n: nat, k: nat) -> Shape
    decreases k,
{
    if k == 0 {
        s
    } else {
        match adaptive_step(f, s, n) {
            None => s,
            Some(t) => adaptive_run(f, t, n, (k - 1) as nat),
        }
    }
}

/// A replaced or shrunk simplex still carries its values, and keeps its best corner.
proof fn lemma_shape_kept(
    f: spec_fn(Seq<Real>) -> Real,
    s: Shape,
    n: nat,
    hi: int,
    x: Seq<Real>,
    lo: int,
    part: Real,
)
    requires
        is_shape(f, s, n),
        0 <= hi <= n,
        0 <= lo <= n,
        x.len() == n,
    ensures
        is_shape(f, replaced(s, hi, x, f(x)), n),
        is_shape(f, shrunk(f, s, lo, part), n),
{
}

pub proof fn lemma_adaptive_shape(f: spec_fn(Seq<Real>) -> Real, s: Shape, n: nat)
    requires
        is_shape(f, s, n),
        n < usize::MAX,
    ensures
        adaptive_step(f, s, n) matches Some(t) ==> is_shape(f, t, n) && t.fv[order_of(s.fv, n + 1)[0] as int]
            == s.fv[order_of(s.fv, n + 1)[0] as int],
{
    let order = order_of(s.fv, n + 1);
    lemma_order(s.fv, n + 1);
    let lo = order[0] as int;
    let hi = order[n as int] as int;
    let c = centroid(s.xs, order, n);
    let h = s.xs[hi];
    let xr = Seq::new(n, |j: int| mirror(c[j], h[j]));
    assert(order[0] < n + 1 && order[n as int] < n + 1);
    assert(lo != hi);
    lemma_shape_kept(f, s, n, hi, xr, lo, sigma(n));
    lemma_shape_kept(f, s, n, hi, beyond(c, h, gamma(n)), lo, sigma(n));
    lemma_shape_kept(f, s, n, hi, beyond(c, h, rho(n)), lo, sigma(n));
    lemma_shape_kept(f, s, n, hi, inside(c, h, rho(n)), lo, sigma(n));
}

/// The search from `start` that takes at most `max_iter` steps: the best corner that it
/// ends with, and the value there.
pub(crate) fn search_adaptive<F: Fn(&Vec<Real>) -> Real>(
    f: &F,
    start_at: &Vec<Real>,
    max_iter: usize,
    Ghost(field): Ghost<spec_fn(Seq<Real>) -> Real>,
) -> (r: (Vec<Real>, Real))
    requires
        models(*f, field, start_at@.len()),
        0 < start_at@.len() < usize::MAX,
    ensures
        ({
            let n = start_at@.len();
            let end = adaptive_run(
                field,
                start_shape(field, start_at@, adaptive_nudge()),
                n,
                max_iter as nat,
            );
            let b = best_of(end.fv, n + 1);
            r.0@ == end.xs[b] && r.1 == end.fv[b]
        }),
        r.0@.len() == start_at@.len(),
        r.1 == field(r.0@),
{
    let n: usize = start_at.len();
    let ghost nudge = adaptive_nudge();
    let step = |x: Real| -> (y: Real)
        ensures y == nudge(x)
    {
        x.plus(if lit(SMALL_START).lt(x.abs()) { lit(SMALL_START) } else { lit(QUARTER) })
    };
    let (mut xs, mut fv) = start(f, start_at, step, Ghost(nudge), Ghost(field));
    let ghost s0 = start_shape(field, start_at@, nudge);
    let mut left: usize = max_iter;
    while left > 0
        invariant_except_break
            adaptive_run(field, s0, n as nat, max_iter as nat) == adaptive_run(
                field,
                (Shape { xs: rows(xs@), fv: fv@ }),
                n as nat,
                left as nat,
            ),
        invariant
            models(*f, field, n as nat),
            0 < n < usize::MAX,
            is_shape(field, (Shape { xs: rows(xs@), fv: fv@ }), n as nat),
        ensures
            adaptive_run(field, s0, n as nat, max_iter as nat) == (Shape { xs: rows(xs@), fv: fv@ }),
        decreases left,
    {
        proof {
            lemma_adaptive_shape(field, Shape { xs: rows(xs@), fv: fv@ }, n as nat);
        }
        let going: bool = adaptive_move(f, &mut xs, &mut fv, Ghost(field));
        if !going {
            break;
        }
        left = left - 1;
    }
    let b: usize = best_corner(&fv);
    let ghost end = Shape { xs: rows(xs@), fv: fv@ };
    proof {
        assert(end.xs[b as int] == xs@[b as int]@);
    }
    (copy(&xs[b]), fv[b])
}

/// The search for the least value of `f`.
pub fn neldermead<F: Fn(&Vec<Real>) -> Real>(
    f: &F,
    start_at: &Vec<Real>,
    max_iter: usize,
) -> (r: (Vec<Real>, Real))
    requires
        is_objective(*f),
        0 < start_at@.len() < usize::MAX,
    ensures
        ({
            let n = start_at@.len();
            let end = adaptive_run(
                values(*f),
                start_shape(values(*f), start_at@, adaptive_nudge()),
                n,
                max_iter as nat,
            );
            let b = best_of(end.fv, n + 1);
            r.0@ == end.xs[b] && r.1 == end.fv[b]
        }),
        r.0@.len() == start_at@.len(),
        r.1 == values(*f)(r.0@),
{
    proof {
        lemma_values(*f, start_at@.len());
    }
    search_adaptive(f, start_at, max_iter, Ghost(values(*f)))
}

/// Whether `f` has a number for its value everywhere.
pub open spec fn numeric(f: spec_fn(Seq<Real>) -> Real) -> bool {
    forall|x: Seq<Real>| !(#[trigger] f(x)).nan()
}

proof fn lemma_first_is_least(f: spec_fn(Seq<Real>) -> Real, s: Shape, n: nat, i: int)
    requires
        is_shape(f, s, n),
        numeric(f),
        n < usize::MAX,
        0 <= i <= n,
    ensures
        all_numbers(s.fv),
        0 <= order_of(s.fv, n + 1)[0] <= n,
        fle(s.fv[order_of(s.fv, n + 1)[0] as int], s.fv[i]),
{
    let order = order_of(s.fv, n + 1);
    lemma_order(s.fv, n + 1);
    lemma_order_sorted(s.fv, n + 1);
    assert(order[0] < n + 1);
    lemma_all_placed(s.fv, n + 1, i);
    let j = choose|j: int| 0 <= j < n + 1 && order[j] == i;
    assert(fle(s.fv[order[0] as int], s.fv[order[j] as int]));
}

proof fn lemma_place_keeps(order: Seq<usize>, fv: Seq<Real>, k: usize, x: usize)
    requires
        order.contains(x) || x == k,
    ensures
        place(order, fv, k).contains(x),
    decreases order.len(),
{
    let r = place(order, fv, k);
    if order.len() > 0 && flt(fv[k as int], fv[order.last() as int]) {
        let front = order.drop_last();
        if x != k && x == order.last() {
            assert(r[r.len() - 1] == x);
        } else {
            if x != k {
                let a = choose|a: int| 0 <= a < order.len() && order[a] == x;
                assert(front[a] == x);
            }
            lemma_place_keeps(front, fv, k, x);
            let p = place(front, fv, k);
            let b = choose|b: int| 0 <= b < p.len() && p[b] == x;
            assert(r[b] == x);
        }
    } else if x == k {
        assert(r[order.len() as int] == x);
    } else {
        let a = choose|a: int| 0 <= a < order.len() && order[a] == x;
        assert(r[a] == x);
    }
}

proof fn lemma_all_placed(fv: Seq<Real>, k: nat, i: int)
    requires
        0 <= i < k <= usize::MAX,
    ensures
        exists|j: int| 0 <= j < k && order_of(fv, k)[j] == i,
    decreases k,
{
    let x = i as usize;
    let before = order_of(fv, (k - 1) as nat);
    if i < k - 1 {
        lemma_all_placed(fv, (k - 1) as nat, i);
        let j = choose|j: int| 0 <= j < k - 1 && before[j] == i;
        lemma_order(fv, (k - 1) as nat);
        assert(before[j] == x);
    }
    lemma_place_keeps(before, fv, (k - 1) as usize, x);
    lemma_order(fv, k);
    let o = order_of(fv, k);
    let j = choose|j: int| 0 <= j < o.len() && o[j] == x;
    assert(o[j] == i);
}

proof fn lemma_adaptive_descends(f: spec_fn(Seq<Real>) -> Real, s: Shape, n: nat, k: nat, i: int)
    requires
        is_shape(f, s, n),
        numeric(f),
        n < usize::MAX,
        0 <= i <= n,
    ensures
        is_shape(f, adaptive_run(f, s, n, k), n),
        fle(adaptive_run(f, s, n, k).fv[best_of(adaptive_run(f, s, n, k).fv, n + 1)], s.fv[i]),
    decreases k,
{
    let end = adaptive_run(f, s, n, k);
    if k == 0 || adaptive_step(f, s, n) is None {
        lemma_first_is_least(f, s, n, i);
        lemma_best(s.fv, n + 1);
    } else {
        let t = adaptive_step(f, s, n)->0;
        let lo = order_of(s.fv, n + 1)[0] as int;
        lemma_adaptive_shape(f, s, n);
        lemma_first_is_least(f, s, n, i);
        lemma_adaptive_descends(f, t, n, (k - 1) as nat, lo);
    }
}

/// The search never ends above its start: the value that it gives back is at most the
/// value at the point where it began and at every other corner of the first simplex, and
/// is the value at the point that it gives back.
pub proof fn law_adaptive_search_descends(f: spec_fn(Seq<Real>) -> Real, base: Seq<Real>, k: nat)
    requires
        numeric(f),
        0 < base.len() < usize::MAX,
    ensures
        ({
            let end = adaptive_run(f, start_shape(f, base, adaptive_nudge()), base.len(), k);
            let b = best_of(end.fv, base.len() + 1);
            &&& fle(end.fv[b], f(base))
            &&& end.fv[b] == f(end.xs[b])
            &&& forall|i: int|
                0 <= i <= base.len() ==> fle(
                    end.fv[b],
                    f(#[trigger] start_points(base, adaptive_nudge(), base.len())[i]),
                )
        }),
{
    let s = start_shape(f, base, adaptive_nudge());
    let corners = start_points(base, adaptive_nudge(), base.len());
    lemma_adaptive_descends(f, s, base.len(), k, 0);
    assert forall|i: int| 0 <= i <= base.len() implies fle(
        adaptive_run(f, s, base.len(), k).fv[best_of(
            adaptive_run(f, s, base.len(), k).fv,
            base.len() + 1,
        )],
        f(#[trigger] corners[i]),
    ) by {
        lemma_adaptive_descends(f, s, base.len(), k, i);
        assert(s.fv[i] == f(corners[i]));
    }
    let end = adaptive_run(f, s, base.len(), k);
    lemma_first_is_least(f, end, base.len(), 0);
    lemma_best(end.fv, base.len() + 1);
}

// ---- the search with fixed coefficients ----

pub open spec fn classic_nudge() -> spec_fn(Real) -> Real {
    |x: Real|
        fadd(
            x,
            if flt(lit(SMALL_START), fabs(x)) {
                fmul(lit(QUARTER), x)
            } else {
                lit(HALF)
            },
        )
}

/// The sum of the `n`-th parts of one coordinate over the first `k` corners of `order`.
pub open spec fn column_share(xs: Seq<Seq<Real>>, order: Seq<usize>, k: nat, j: int, n: nat) -> Real
    decreases k,
{
    if k == 0 {
        lit(ZERO)
    } else {
        fadd(
            column_share(xs, order, (k - 1) as nat, j, n),
            fdiv(xs[order[k - 1] as int][j], fint(n as int)),
        )
    }
}

/// The mean of the first `n` corners of `order`, summed part by part.
pub open spec fn centroid_share(xs: Seq<Seq<Real>>, order: Seq<usize>, n: nat) -> Seq<Real> {
    Seq::new(n, |j: int| column_share(xs, order, n, j, n))
}

fn centre_share(xs: &Vec<Vec<Real>>, order: &Vec<usize>, n: usize) -> (c: Vec<Real>)
    requires
        n <= order@.len(),
        forall|i: int| 0 <= i < order@.len() ==> (#[trigger] order@[i]) < xs@.len(),
        forall|i: int| 0 <= i < xs@.len() ==> (#[trigger] xs@[i])@.len() == n,
    ensures
        c@ == centroid_share(rows(xs@), order@, n as nat),
{
    let mut c: Vec<Real> = Vec::new();
    let count: Real = Real::from_count(n as u64);
    let mut j: usize = 0;
    while j < n
        invariant
            j <= n,
            n <= order@.len(),
            count == fint(n as int),
            forall|i: int| 0 <= i < order@.len() ==> (#[trigger] order@[i]) < xs@.len(),
            forall|i: int| 0 <= i < xs@.len() ==> (#[trigger] xs@[i])@.len() == n,
            c@.len() == j,
            forall|i: int|
                0 <= i < j ==> #[trigger] c@[i] == centroid_share(rows(xs@), order@, n as nat)[i],
        decreases n - j,
    {
        let mut sum: Real = lit(ZERO);
        let mut k: usize = 0;
        while k < n
            invariant
                k <= n,
                j < n,
                n <= order@.len(),
                count == fint(n as int),
                forall|i: int| 0 <= i < order@.len() ==> (#[trigger] order@[i]) < xs@.len(),
                forall|i: int| 0 <= i < xs@.len() ==> (#[trigger] xs@[i])@.len() == n,
                sum == column_share(rows(xs@), order@, k as nat, j as int, n as nat),
            decreases n - k,
        {
            sum = sum.plus(xs[order[k]][j].over(count));
            k = k + 1;
        }
        c.push(sum);
        j = j + 1;
    }
    proof {
        assert(c@ =~= centroid_share(rows(xs@), order@, n as nat));
    }
    c
}

/// `2 a - b`, coordinate by coordinate.
pub open spec fn doubled_less(a: Seq<Real>, b: Seq<Real>) -> Seq<Real> {
    Seq::new(a.len(), |j: int| fsub(fmul(lit(TWO), a[j]), b[j]))
}

/// `h / 2 + c / 2`, coordinate by coordinate.
pub open spec fn halfway(c: Seq<Real>, h: Seq<Real>) -> Seq<Real> {
    Seq::new(c.len(), |j: int| fadd(fmul(lit(HALF), h[j]), fmul(lit(HALF), c[j])))
}

/// One step of the search; `None` where the values are as good as equal.
pub open spec fn classic_step(f: spec_fn(Seq<Real>) -> Real, s: Shape, n: nat) -> Option<Shape> {
    let order = order_of(s.fv, n + 1);
    let lo = order[0] as int;
    let hi = order[n as int] as int;
    if flt(fabs(fsub(s.fv[hi], s.fv[lo])), lit(SPREAD)) {
        None
    } else {
        let c = centroid_share(s.xs, order, n);
        let xr = doubled_less(c, s.xs[hi]);
        let fr = f(xr);
        let xe = doubled_less(xr, c);
        let xc = halfway(c, s.xs[hi]);
        Some(
            if fle(s.fv[lo], fr) && flt(fr, s.fv[order[n - 1] as int]) {
                replaced(s, hi, xr, fr)
            } else if flt(fr, s.fv[lo]) {
                if flt(f(xe), fr) {
                    replaced(s, hi, xe, f(xe))
                } else {
                    replaced(s, hi, xr, fr)
                }
            } else if flt(f(xc), s.fv[hi]) {
                replaced(s, hi, xc, f(xc))
            } else {
                shrunk(f, s, lo, lit(HALF))
            },
        )
    }
}

/// One step of the search; `false` where the search has ended.
fn classic_move<F: Fn(&Vec<Real>) -> Real>(
    f: &F,
    xs: &mut Vec<Vec<Real>>,
    fv: &mut Vec<Real>,
    Ghost(field): Ghost<spec_fn(Seq<Real>) -> Real>,
) -> (r: bool)
    requires
        models(*f, field, (old(xs)@.len() - 1) as nat),
        is_shape(field, (Shape { xs: rows(old(xs)@), fv: old(fv)@ }), (old(xs)@.len() - 1) as nat),
    ensures
        ({
            let s = Shape { xs: rows(old(xs)@), fv: old(fv)@ };
            let t = Shape { xs: rows(final(xs)@), fv: final(fv)@ };
            match classic_step(field, s, (old(xs)@.len() - 1) as nat) {
                None => !r && t == s,
                Some(u) => r && t == u,
            }
        }),
{
    let n: usize = xs.len() - 1;
    let ghost s = Shape { xs: rows(xs@), fv: fv@ };
    proof {
        assert forall|i: int| 0 <= i < xs@.len() implies (#[trigger] xs@[i])@.len() == n by {
            assert(s.xs[i] == xs@[i]@);
        }
    }
    let order: Vec<usize> = sort_corners(fv);
    let lo: usize = order[0];
    let hi: usize = order[n];
    if fv[hi].minus(fv[lo]).abs().lt(lit(SPREAD)) {
        return false;
    }
    let c: Vec<Real> = centre_share(xs, &order, n);
    let twice = |a: Real, b: Real| -> (r: Real)
        ensures r == fsub(fmul(lit(TWO), a), b)
    {
        lit(TWO).times(a).minus(b)
    };
    let xr: Vec<Real> = zip(&c, &xs[hi], twice);
    proof {
        assert(xr@ =~= doubled_less(c@, s.xs[hi as int]));
    }
    let fr: Real = evaluate_at(f, &xr, Ghost(field));
    if fv[lo].le(fr) && fr.lt(fv[order[n - 1]]) {
        put(xs, fv, hi, xr, fr);
        return true;
    }
    if fr.lt(fv[lo]) {
        let xe: Vec<Real> = zip(&xr, &c, twice);
        proof {
            assert(xe@ =~= doubled_less(xr@, c@));
        }
        let fe: Real = evaluate_at(f, &xe, Ghost(field));
        if fe.lt(fr) {
            put(xs, fv, hi, xe, fe);
        } else {
            put(xs, fv, hi, xr, fr);
        }
        return true;
    }
    let half = |c: Real, h: Real| -> (r: Real)
        ensures r == fadd(fmul(lit(HALF), h), fmul(lit(HALF), c))
    {
        lit(HALF).times(h).plus(lit(HALF).times(c))
    };
    let xc: Vec<Real> = zip(&c, &xs[hi], half);
    proof {
        assert(xc@ =~= halfway(c@, s.xs[hi as int]));
    }
    let fc: Real = evaluate_at(f, &xc, Ghost(field));
    if fc.lt(fv[hi]) {
        put(xs, fv, hi, xc, fc);
    } else {
        shrink(f, xs, fv, lo, lit(HALF), Ghost(field));
    }
    true
}

/// The simplex after at most `k` steps, and whether the search has ended within them.
pub open spec fn classic_run(f: spec_fn(Seq<Real>) -> Real, s: Shape, n: nat, k: nat) -> (Shape, bool)
    decreases k,
{
    if k == 0 {
        (s, false)
    } else {
        match classic_step(f, s, n) {
            None => (s, true),
            Some(t) => classic_run(f, t, n, (k - 1) as nat),
        }
    }
}

pub proof fn lemma_classic_shape(f: spec_fn(Seq<Real>) -> Real, s: Shape, n: nat)
    requires
        is_shape(f, s, n),
        n < usize::MAX,
    ensures
        classic_step(f, s, n) matches Some(t) ==> is_shape(f, t, n) && t.fv[order_of(s.fv, n + 1)[0] as int]
            == s.fv[order_of(s.fv, n + 1)[0] as int],
{
    let order = order_of(s.fv, n + 1);
    lemma_order(s.fv, n + 1);
    let lo = order[0] as int;
    let hi = order[n as int] as int;
    let c = centroid_share(s.xs, order, n);
    let xr = doubled_less(c, s.xs[hi]);
    assert(order[0] < n + 1 && order[n as int] < n + 1);
    assert(lo != hi);
    lemma_shape_kept(f, s, n, hi, xr, lo, lit(HALF));
    lemma_shape_kept(f, s, n, hi, doubled_less(xr, c), lo, lit(HALF));
    lemma_shape_kept(f, s, n, hi, halfway(c, s.xs[hi]), lo, lit(HALF));
}

/// The search from `x0` that takes at most `max_iter` steps: the best corner that it ends
/// with, the value there, and whether the values have come together.
pub(crate) fn search_classic<F: Fn(&Vec<Real>) -> Real>(
    f: &F,
    x0: &Vec<Real>,
    max_iter: usize,
    Ghost(field): Ghost<spec_fn(Seq<Real>) -> Real>,
) -> (r: (Vec<Real>, Real, bool))
    requires
        models(*f, field, x0@.len()),
        0 < x0@.len() < usize::MAX,
    ensures
        ({
            let n = x0@.len();
            let (end, met) = classic_run(
                field,
                start_shape(field, x0@, classic_nudge()),
                n,
                max_iter as nat,
            );
            let b = best_of(end.fv, n + 1);
            r.0@ == end.xs[b] && r.1 == end.fv[b] && r.2 == met
        }),
        r.0@.len() == x0@.len(),
        r.1 == field(r.0@),
{
    let n: usize = x0.len();
    let ghost nudge = classic_nudge();
    let step = |x: Real| -> (y: Real)
        ensures y == nudge(x)
    {
        x.plus(if lit(SMALL_START).lt(x.abs()) { lit(QUARTER).times(x) } else { lit(HALF) })
    };
    let (mut xs, mut fv) = start(f, x0, step, Ghost(nudge), Ghost(field));
    let ghost s0 = start_shape(field, x0@, nudge);
    let mut left: usize = max_iter;
    let mut met: bool = false;
    while left > 0
        invariant_except_break
            !met,
            classic_run(field, s0, n as nat, max_iter as nat) == classic_run(
                field,
                (Shape { xs: rows(xs@), fv: fv@ }),
                n as nat,
                left as nat,
            ),
        invariant
            models(*f, field, n as nat),
            0 < n < usize::MAX,
            is_shape(field, (Shape { xs: rows(xs@), fv: fv@ }), n as nat),
        ensures
            classic_run(field, s0, n as nat, max_iter as nat) == ((Shape { xs: rows(xs@), fv: fv@ }), met),
        decreases left,
    {
        proof {
            lemma_classic_shape(field, Shape { xs: rows(xs@), fv: fv@ }, n as nat);
        }
        let going: bool = classic_move(f, &mut xs, &mut fv, Ghost(field));
        if !going {
            met = true;
            break;
        }
        left = left - 1;
    }
    let b: usize = best_corner(&fv);
    let ghost end = Shape { xs: rows(xs@), fv: fv@ };
    proof {
        assert(end.xs[b as int] == xs@[b as int]@);
    }
    (copy(&xs[b]), fv[b], met)
}

/// The search for the least value of `f`.
pub fn nelder_mead<F: Fn(&Vec<Real>) -> Real>(
    f: &F,
    x0: &Vec<Real>,
    max_iter: usize,
) -> (r: (Vec<Real>, Real, bool))
    requires
        is_objective(*f),
        0 < x0@.len() < usize::MAX,
    ensures
        ({
            let n = x0@.len();
            let (end, met) = classic_run(
                values(*f),
                start_shape(values(*f), x0@, classic_nudge()),
                n,
                max_iter as nat,
            );
            let b = best_of(end.fv, n + 1);
            r.0@ == end.xs[b] && r.1 == end.fv[b] && r.2 == met
        }),
        r.0@.len() == x0@.len(),
        r.1 == values(*f)(r.0@),
{
    proof {
        lemma_values(*f, x0@.len());
    }
    search_classic(f, x0, max_iter, Ghost(values(*f)))
}

proof fn lemma_classic_descends(f: spec_fn(Seq<Real>) -> Real, s: Shape, n: nat, k: nat, i: int)
    requires
        is_shape(f, s, n),
        numeric(f),
        n < usize::MAX,
        0 <= i <= n,
    ensures
        is_shape(f, classic_run(f, s, n, k).0, n),
        fle(classic_run(f, s, n, k).0.fv[best_of(classic_run(f, s, n, k).0.fv, n + 1)], s.fv[i]),
    decreases k,
{
    if k == 0 || classic_step(f, s, n) is None {
        lemma_first_is_least(f, s, n, i);
        lemma_best(s.fv, n + 1);
    } else {
        let t = classic_step(f, s, n)->0;
        let lo = order_of(s.fv, n + 1)[0] as int;
        lemma_classic_shape(f, s, n);
        lemma_first_is_least(f, s, n, i);
        lemma_classic_descends(f, t, n, (k - 1) as nat, lo);
    }
}

/// The search never ends above its start: the value that it gives back is at most the
/// value at the point where it began and at every other corner of the first simplex, and
/// is the value at the point that it gives back.
pub proof fn law_classic_search_descends(f: spec_fn(Seq<Real>) -> Real, base: Seq<Real>, k: nat)
    requires
        numeric(f),
        0 < base.len() < usize::MAX,
    ensures
        ({
            let end = classic_run(f, start_shape(f, base, classic_nudge()), base.len(), k).0;
            let b = best_of(end.fv, base.len() + 1);
            &&& fle(end.fv[b], f(base))
            &&& end.fv[b] == f(end.xs[b])
            &&& forall|i: int|
                0 <= i <= base.len() ==> fle(
                    end.fv[b],
                    f(#[trigger] start_points(base, classic_nudge(), base.len())[i]),
                )
        }),
{
    let s = start_shape(f, base, classic_nudge());
    let corners = start_points(base, classic_nudge(), base.len());
    lemma_classic_descends(f, s, base.len(), k, 0);
    assert forall|i: int| 0 <= i <= base.len() implies fle(
        classic_run(f, s, base.len(), k).0.fv[best_of(
            classic_run(f, s, base.len(), k).0.fv,
            base.len() + 1,
        )],
        f(#[trigger] corners[i]),
    ) by {
        lemma_classic_descends(f, s, base.len(), k, i);
        assert(s.fv[i] == f(corners[i]));
    }
    let end = classic_run(f, s, base.len(), k).0;
    lemma_first_is_least(f, end, base.len(), 0);
    lemma_best(end.fv, base.len() + 1);
}

} // verus!
