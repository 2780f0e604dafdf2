//! Rounding to the nearest representable magnitude, ties to the even pattern.
use vstd::prelude::*;
use vstd::arithmetic::power2::{pow2, lemma_pow2_pos, lemma_pow2_adds, lemma_pow2_unfold,
    lemma_pow2_strictly_increases, lemma2_to64, lemma2_to64_rest};
use vstd::arithmetic::div_mod::{lemma_fundamental_div_mod, lemma_fundamental_div_mod_converse};
use vstd::bits::lemma_u128_shr_is_div;
use super::{mag, BINADE, INF};

verus! {

/// Whether `n` is the pattern nearest to `p / q` quanta: `p / q` lies between the
/// midpoints to the neighbours of `n`, and on a midpoint only when `n` is even. What
/// lies beyond the last midpoint rounds to infinity.
pub open spec fn rounds(p: int, q: int, n: int) -> bool {
    &&& 0 <= n <= INF
    &&& 0 < n ==> at_least_mid(p, q, n - 1, n % 2 == 0)
    &&& n < INF ==> at_most_mid(p, q, n, n % 2 == 0)
}

/// `p / q` is above the midpoint of the magnitudes `k` and `k + 1`, or on it where a tie
/// is `allowed`.
pub open spec fn at_least_mid(p: int, q: int, k: int, allowed: bool) -> bool {
    let mid = (mag(k) + mag(k + 1)) * q;
    mid < 2 * p || (allowed && mid == 2 * p)
}

/// `p / q` is below the midpoint of the magnitudes `k` and `k + 1`, or on it where a tie
/// is `allowed`.
pub open spec fn at_most_mid(p: int, q: int, k: int, allowed: bool) -> bool {
    let mid = (mag(k) + mag(k + 1)) * q;
    2 * p < mid || (allowed && mid == 2 * p)
}

/// The pattern nearest to `p / q` quanta.
pub open spec fn rounded(p: int, q: int) -> int {
    choose|n: int| rounds(p, q, n)
}

/// The magnitude of the pattern with binade `t` and significand `h`.
pub proof fn lemma_mag(t: int, h: int)
    requires
        0 <= t,
        0 <= h <= 2 * BINADE,
        t == 0 || BINADE <= h,
    ensures
        0 <= t * BINADE + h,
        mag(t * BINADE + h) == h * pow2(t as nat),
        (t * BINADE + h) % 2 == h % 2,
{
    let n = t * BINADE + h;
    let b = BINADE as int;
    assert(pow2(0) == 1) by { lemma2_to64(); }
    if n < 2 * b {
        assert(t == 0) by (nonlinear_arith)
            requires t * b + h < 2 * b, 0 <= t, t == 0 || b <= h, b == 0x0010_0000_0000_0000;
        let w = pow2(t as nat) as int;
        assert(h * w == h) by (nonlinear_arith) requires w == 1;
        assert(mag(n) == h);
    } else if h == 2 * b {
        lemma_fundamental_div_mod_converse(n, b, t + 2, 0);
        lemma_pow2_unfold((t + 1) as nat);
        let w = pow2(t as nat) as int;
        assert(b * (2 * w) == (2 * b) * w) by (nonlinear_arith);
        assert(mag(n) == b * pow2((t + 1) as nat));
    } else {
        lemma_fundamental_div_mod_converse(n, b, t + 1, h - b);
        assert(mag(n) == h * pow2(t as nat));
    }
}

/// A binade and a significand for every pattern.
pub open spec fn binade_of(n: int) -> int {
    if n < 2 * BINADE {
        0
    } else {
        n / (BINADE as int) - 1
    }
}

pub proof fn lemma_mag_next(n: int)
    requires
        0 <= n,
    ensures
        0 <= mag(n) < mag(n + 1),
{
    let b = BINADE as int;
    let t = binade_of(n);
    let h = n - t * b;
    assert(n == t * b + h);
    if n >= 2 * b {
        assert(n == b * (n / b) + n % b) by {
            lemma_fundamental_div_mod(n, b);
        }
        assert(n / b >= 2) by (nonlinear_arith) requires n >= 2 * b, b == 0x0010_0000_0000_0000;
        assert(h == n % b + b) by (nonlinear_arith)
            requires n == b * (n / b) + n % b, h == n - (n / b - 1) * b;
    }
    lemma_mag(t, h);
    lemma_mag(t, h + 1);
    lemma_pow2_pos(t as nat);
    let w = pow2(t as nat) as int;
    assert(0 <= h * w < (h + 1) * w) by (nonlinear_arith) requires 0 <= h, 0 < w;
}

pub proof fn lemma_mag_monotone(n: int, m: int)
    requires
        0 <= n < m,
    ensures
        mag(n) < mag(m),
    decreases m - n,
{
    lemma_mag_next(n);
    if n + 1 < m {
        lemma_mag_monotone(n + 1, m);
    }
}

/// At most one pattern is nearest.
pub proof fn lemma_rounds_unique(p: int, q: int, n: int, m: int)
    requires
        0 < q,
        rounds(p, q, n),
        rounds(p, q, m),
    ensures
        n == m,
    decreases (if n <= m { 0int } else { 1int }),
{
    if m < n {
        lemma_rounds_unique(p, q, m, n);
    } else if n < m {
        lemma_mag_next(n);
        lemma_mag_next(m - 1);
        let a = mag(n) + mag(n + 1);
        let b = mag(m - 1) + mag(m);
        if n < m - 1 {
            lemma_mag_monotone(n, m - 1);
            if n + 1 < m {
                lemma_mag_monotone(n + 1, m);
            }
            assert(a * q < b * q) by (nonlinear_arith) requires a < b, 0 < q;
        }
    }
}

/// What `rounds` describes is `rounded`.
pub proof fn lemma_rounded(p: int, q: int, n: int)
    requires
        0 < q,
        rounds(p, q, n),
    ensures
        rounded(p, q) == n,
{
    lemma_rounds_unique(p, q, n, rounded(p, q));
}

/// A left shift without loss is a multiplication.
pub proof fn lemma_shl(x: u128, k: u128)
    requires
        k < 128,
        x * pow2(k as nat) < 0x1_0000_0000_0000_0000_0000_0000_0000_0000,
    ensures
        (x << k) == x * pow2(k as nat),
    decreases k,
{
    if k == 0 {
        assert(x << 0 == x) by (bit_vector);
        lemma2_to64();
    } else {
        let j = (k - 1) as u128;
        lemma_pow2_unfold(k as nat);
        let w = pow2(j as nat) as int;
        lemma_pow2_pos(j as nat);
        assert(x * (2 * w) == 2 * (x * w)) by (nonlinear_arith);
        assert(0 <= x * w) by (nonlinear_arith) requires 0 < w;
        lemma_shl(x, j);
        let y = x << j;
        assert(x << k == y << 1) by (bit_vector)
            requires y == x << j, k == j + 1, k < 128;
        assert(y << 1 == 2 * y) by (bit_vector)
            requires y < 0x8000_0000_0000_0000_0000_0000_0000_0000u128;
    }
}

/// `x` shifted right by `k`, as quotient and remainder.
pub fn split(x: u128, k: u32) -> (r: (u128, u128))
    requires
        k < 127,
    ensures
        x == r.0 * pow2(k as nat) + r.1,
        r.1 < pow2(k as nat),
        pow2(k as nat) <= 0x4000_0000_0000_0000_0000_0000_0000_0000,
{
    let h: u128 = x >> (k as u128);
    proof {
        lemma_u128_shr_is_div(x, k as u128);
        lemma_pow2_pos(k as nat);
        lemma_fundamental_div_mod(x as int, pow2(k as nat) as int);
        lemma_pow2_bound(k as nat);
        let w = pow2(k as nat) as int;
        assert(h * w == w * h) by (nonlinear_arith);
        lemma_shl(h, k as u128);
    }
    (h, x - (h << (k as u128)))
}

/// The powers of two that bound significands and words.
pub proof fn lemma_powers()
    ensures
        pow2(0) == 1,
        pow2(1) == 2,
        pow2(52) == BINADE,
        pow2(53) == 2 * BINADE,
        pow2(54) == 4 * BINADE,
        pow2(64) == 0x1_0000_0000_0000_0000,
        pow2(126) == 0x4000_0000_0000_0000_0000_0000_0000_0000,
        pow2(127) == 0x8000_0000_0000_0000_0000_0000_0000_0000,
        pow2(128) == 0x1_0000_0000_0000_0000_0000_0000_0000_0000,
{
    lemma2_to64();
    lemma2_to64_rest();
    lemma_pow2_adds(62, 64);
    lemma_pow2_adds(63, 64);
    lemma_pow2_adds(64, 64);
}

proof fn lemma_pow2_bound(k: nat)
    requires
        k <= 126,
    ensures
        0 < pow2(k) <= 0x4000_0000_0000_0000_0000_0000_0000_0000,
{
    lemma_pow2_pos(k);
    lemma_powers();
    if k < 126 {
        lemma_pow2_strictly_increases(k, 126);
    }
}

/// The number of bits of `m`.
pub fn bit_len(m: u128) -> (l: u32)
    requires
        m < 0x8000_0000_0000_0000_0000_0000_0000_0000,
    ensures
        l <= 127,
        m < pow2(l as nat),
        m == 0 ==> l == 0,
        m > 0 ==> l > 0 && pow2((l - 1) as nat) <= m,
{
    let mut x: u128 = m;
    let mut l: u32 = 0;
    let mut k: u32 = 64;
    proof {
        lemma2_to64();
        lemma_pow2_adds(64, 64);
    }
    while k > 0
        invariant
            k == 64 || k == 32 || k == 16 || k == 8 || k == 4 || k == 2 || k == 1 || k == 0,
            k > 0 ==> l + 2 * k <= 128,
            l <= 127 || (k == 0 && x <= 1),
            l + (if k == 0 { 1int } else { 2 * k as int }) <= 128,
            x < pow2((if k == 0 { 1int } else { 2 * k as int }) as nat),
            x * pow2(l as nat) <= m < (x + 1) * pow2(l as nat),
            m > 0 ==> x > 0,
            m == 0 ==> x == 0 && l == 0,
        decreases k,
    {
        let (h, low) = split(x, k);
        proof {
            lemma2_to64();
            lemma_pow2_adds(k as nat, k as nat);
            lemma_pow2_adds(l as nat, k as nat);
            let w = pow2(k as nat) as int;
            let v = pow2(l as nat) as int;
            lemma_pow2_pos(k as nat);
            lemma_pow2_pos(l as nat);
            assert(h < w) by (nonlinear_arith)
                requires h * w + low < w * w, 0 <= low, 0 < w;
            assert(h * (v * w) <= m < (h + 1) * (v * w)) by (nonlinear_arith)
                requires
                    x * v <= m < (x + 1) * v, x == h * w + low, 0 <= low < w, 0 < v, 0 < w;
            assert(m == 0 ==> h == 0) by (nonlinear_arith)
                requires m == 0 ==> x == 0, x == h * w + low, 0 <= low, 0 < w, 0 <= h;
            if h == 0 {
                assert(x < w) by (nonlinear_arith) requires x == h * w + low, h == 0, low < w;
            }
        }
        if h > 0 {
            x = h;
            l = l + k;
        }
        proof {
            assert(k / 2 > 0 ==> 2 * (k / 2) == k);
        }
        k = k / 2;
    }
    proof {
        lemma2_to64();
        let v = pow2(l as nat) as int;
        lemma_pow2_unfold((l + 1) as nat);
        assert(x == 1 ==> v <= m < 2 * v) by (nonlinear_arith)
            requires x * v <= m < (x + 1) * v;
        lemma_pow2_pos(l as nat);
        if l == 127 && x == 1 {
            lemma_pow2_adds(63, 64);
        }
    }
    if x > 0 {
        l + 1
    } else {
        l
    }
}

/// The least binade offset that the kernel serves, as a positive number.
pub const OFFSET: u64 = 1200;

/// `p / q` quanta is `m` units of 2^`e` quanta, exactly or with a `rest` of less than a unit.
pub open spec fn measured(p: int, q: int, m: int, e: int, rest: bool) -> bool {
    let unit = q * pow2((e + OFFSET) as nat);
    let whole = p * pow2(OFFSET as nat);
    &&& m * unit <= whole < (m + 1) * unit
    &&& rest == (m * unit != whole)
}

/// `near` is `rounds` without the bound at infinity.
spec fn near(p: int, q: int, n: int) -> bool {
    &&& 0 <= n
    &&& 0 < n ==> at_least_mid(p, q, n - 1, n % 2 == 0)
    &&& at_most_mid(p, q, n, n % 2 == 0)
}

proof fn lemma_saturate(p: int, q: int, n: int)
    requires
        0 < q,
        near(p, q, n),
    ensures
        rounds(p, q, if n < INF { n } else { INF as int }),
{
    if n > INF {
        let i = INF as int;
        lemma_mag_next(i);
        if i < n - 1 {
            lemma_mag_monotone(i, n - 1);
        }
        lemma_mag_next(i - 1);
        lemma_mag_monotone(i, n);
        let a = mag(i - 1) + mag(i);
        let b = mag(n - 1) + mag(n);
        assert(a * q < b * q) by (nonlinear_arith) requires a < b, 0 < q;
    }
}

/// The kernel of every rounding: unit `2^s` times the old one, `h` such units and `low`
/// old ones; the upper half of the unit is `half`.
proof fn lemma_near(p: int, q: int, m: int, e: int, rest: bool, s: int, h: int, low: int, half: int)
    requires
        0 < q,
        0 <= m,
        -OFFSET <= e,
        measured(p, q, m, e, rest),
        0 < s,
        0 <= e + s,
        m == h * pow2(s as nat) + low,
        0 <= low < pow2(s as nat),
        pow2(s as nat) == 2 * half,
        0 <= h < 2 * BINADE,
        e + s == 0 || BINADE <= h,
    ensures
        ({
            let n = (e + s) * BINADE + h;
            let up = low > half || (low == half && (rest || h % 2 == 1));
            near(p, q, if up { n + 1 } else { n })
        }),
{
    let t = e + s;
    let n = t * BINADE + h;
    let unit = q * pow2((e + OFFSET) as nat);
    let whole = p * pow2(OFFSET as nat);
    let c = pow2(OFFSET as nat) as int;
    let w = pow2(s as nat) as int;
    let v = pow2(t as nat) as int;
    lemma_pow2_pos(OFFSET as nat);
    lemma_pow2_pos((e + OFFSET) as nat);
    lemma_pow2_pos(t as nat);
    lemma_pow2_adds((e + OFFSET) as nat, s as nat);
    lemma_pow2_adds(t as nat, OFFSET as nat);
    let d = pow2((e + OFFSET) as nat) as int;
    assert(d * w == v * c);
    assert(0 < unit) by (nonlinear_arith) requires unit == q * d, 0 < q, 0 < d;
    assert(w * unit == v * q * c) by (nonlinear_arith)
        requires unit == q * d, d * w == v * c;
    lemma_mag(t, h);
    lemma_mag(t, h + 1);
    lemma_mag_next(n);
    lemma_mag_next(n + 1);
    assert(mag(n) + mag(n + 1) == (2 * h + 1) * v) by (nonlinear_arith)
        requires mag(n) == h * v, mag(n + 1) == (h + 1) * v;
    let mid = (mag(n) + mag(n + 1)) * q;
    assert(mid * c == (2 * h + 1) * (w * unit)) by (nonlinear_arith)
        requires mid == (2 * h + 1) * v * q, w * unit == v * q * c,
            mag(n) + mag(n + 1) == (2 * h + 1) * v;
    // in old units, the midpoint is at h * w + half
    assert((2 * h + 1) * (w * unit) == 2 * ((h * w + half) * unit)) by (nonlinear_arith)
        requires w == 2 * half;
    assert(m * unit == (h * w + low) * unit);
    let k = h * w + half;
    assert(mid * c == 2 * (k * unit));
    if low > half {
        assert((k + 1) * unit <= m * unit) by (nonlinear_arith) requires k + 1 <= m, 0 < unit;
        assert(k * unit < (k + 1) * unit) by (nonlinear_arith) requires 0 < unit;
    } else if low < half {
        assert((m + 1) * unit <= k * unit) by (nonlinear_arith) requires m + 1 <= k, 0 < unit;
    }
    lemma_scale(mid, 2 * p, c);
    assert((2 * p) * c == 2 * whole) by (nonlinear_arith) requires whole == p * c;
    let up = low > half || (low == half && (rest || h % 2 == 1));
    if up {
        // above the midpoint, below the next magnitude
        let top = mag(n + 1) * q;
        assert(top * c == (h + 1) * (w * unit)) by (nonlinear_arith)
            requires top == (h + 1) * v * q, w * unit == v * q * c, mag(n + 1) == (h + 1) * v;
        assert((h + 1) * (w * unit) == (h * w + w) * unit) by (nonlinear_arith);
        assert((m + 1) * unit <= (h * w + w) * unit) by (nonlinear_arith)
            requires m + 1 <= h * w + w, 0 < unit;
        lemma_scale(p, top, c);
        let far = (mag(n + 1) + mag(n + 2)) * q;
        assert(2 * top < far) by (nonlinear_arith)
            requires top == mag(n + 1) * q, far == (mag(n + 1) + mag(n + 2)) * q,
                mag(n + 1) < mag(n + 2), 0 < q;
        assert(near(p, q, n + 1));
    } else {
        if 0 < n {
            lemma_mag_next(n - 1);
            let base = mag(n) * q;
            assert(base * c == h * (w * unit)) by (nonlinear_arith)
                requires base == h * v * q, w * unit == v * q * c, mag(n) == h * v;
            assert(h * (w * unit) == (h * w) * unit) by (nonlinear_arith);
            assert((h * w) * unit <= m * unit) by (nonlinear_arith)
                requires h * w <= m, 0 < unit;
            lemma_scale(p, base, c);
            let below = (mag(n - 1) + mag(n)) * q;
            assert(below < 2 * base) by (nonlinear_arith)
                requires base == mag(n) * q, below == (mag(n - 1) + mag(n)) * q,
                    mag(n - 1) < mag(n), 0 < q;
        }
        assert(near(p, q, n));
    }
}

proof fn lemma_scale(a: int, b: int, c: int)
    requires
        0 < c,
    ensures
        (a * c < b * c) == (a < b),
        (a * c <= b * c) == (a <= b),
        (a * c == b * c) == (a == b),
{
    assert((a * c < b * c) == (a < b)) by (nonlinear_arith) requires 0 < c;
    assert((a * c <= b * c) == (a <= b)) by (nonlinear_arith) requires 0 < c;
}

/// The pattern nearest to the `p / q` that `m`, `e` and `rest` measure.
pub fn nearest(m: u128, e: i64, rest: bool, Ghost(p): Ghost<int>, Ghost(q): Ghost<int>) -> (n: u64)
    requires
        0 < q,
        m < 0x4000_0000_0000_0000_0000_0000_0000_0000,
        -1200 <= e <= 3200,
        rest ==> 0x40_0000_0000_0000 <= m,
        measured(p, q, m as int, e as int, rest),
    ensures
        rounds(p, q, n as int),
        n == rounded(p, q),
{
    proof {
        lemma_pow2_pos(OFFSET as nat);
        lemma_pow2_pos((e + OFFSET) as nat);
        lemma_powers();
    }
    if m == 0 {
        proof {
            let unit = q * pow2((e + OFFSET) as nat);
            let c = pow2(OFFSET as nat) as int;
            assert(0 * unit == 0) by (nonlinear_arith);
            assert(p == 0) by (nonlinear_arith) requires p * c == 0, 0 < c;
            lemma_mag_next(0);
            assert(mag(0) == 0 && mag(1) == 1);
            assert(rounds(p, q, 0)) by (nonlinear_arith)
                requires p == 0, 0 < q, mag(0) == 0, mag(1) == 1,
                    at_most_mid(p, q, 0, true) <==> (2 * p < (mag(0) + mag(1)) * q || (mag(0) + mag(1)) * q == 2 * p),
                    rounds(p, q, 0) <==> at_most_mid(p, q, 0, true);
            lemma_rounded(p, q, 0);
        }
        return 0;
    }
    let len: i64 = bit_len(m) as i64;
    let s: i64 = if len - 53 > -e { len - 53 } else { -e };
    if s <= 0 {
        let j: u32 = (-s) as u32;
        proof {
            if rest {
                if len < 54 {
                    lemma_pow2_strictly_increases(len as nat, 54);
                }
            }
            lemma_exact(p, q, m as int, e as int, j as int, len as int);
        }
        let h: u64 = (m << (j as u128)) as u64;
        let n: u64 = (e + s) as u64 * BINADE + h;
        proof {
            lemma_saturate(p, q, n as int);
            lemma_rounded(p, q, if n < INF { n as int } else { INF as int });
        }
        return if n < INF { n } else { INF };
    }
    if s >= 127 {
        // less than half a quantum
        proof {
            lemma_tiny(p, q, m as int, e as int, s as int);
            lemma_rounded(p, q, 0);
        }
        return 0;
    }
    let (h, low) = split(m, s as u32);
    let half: u128 = split_half(s as u32);
    proof {
        lemma_top_bits(m as int, h as int, low as int, s as int, len as int);
        lemma_near(p, q, m as int, e as int, rest, s as int, h as int, low as int, half as int);
    }
    let base: u64 = (e + s) as u64 * BINADE + h as u64;
    let up: bool = low > half || (low == half && (rest || h % 2 == 1));
    let n: u64 = if up { base + 1 } else { base };
    proof {
        lemma_saturate(p, q, n as int);
        lemma_rounded(p, q, if n < INF { n as int } else { INF as int });
    }
    if n < INF { n } else { INF }
}

/// Half of 2^`s`.
fn split_half(s: u32) -> (r: u128)
    requires
        0 < s < 127,
    ensures
        2 * r == pow2(s as nat),
{
    proof {
        lemma_pow2_bound((s - 1) as nat);
        lemma_shl(1u128, (s - 1) as u128);
        lemma_pow2_unfold(s as nat);
    }
    1u128 << ((s - 1) as u128)
}

proof fn lemma_top_bits(m: int, h: int, low: int, s: int, len: int)
    requires
        0 < s,
        0 < len,
        len - 53 <= s,
        m < pow2(len as nat),
        pow2((len - 1) as nat) <= m,
        m == h * pow2(s as nat) + low,
        0 <= low < pow2(s as nat),
    ensures
        0 <= h < 2 * BINADE,
        s == len - 53 ==> BINADE <= h,
{
    let w = pow2(s as nat) as int;
    lemma_pow2_pos(s as nat);
    lemma_powers();
    lemma_pow2_adds(53, s as nat);
    assert(pow2(53) == 2 * BINADE);
    if len < 53 + s {
        lemma_pow2_strictly_increases(len as nat, (53 + s) as nat);
    }
    assert(h < 2 * BINADE) by (nonlinear_arith)
        requires h * w + low < (2 * BINADE) * w, 0 <= low, 0 < w;
    lemma_pow2_pos((len - 1) as nat);
    assert(0 <= h) by (nonlinear_arith) requires 0 < h * w + low, low < w, 0 < w;
    if s == len - 53 {
        lemma_pow2_adds(52, s as nat);
        assert(BINADE <= h) by (nonlinear_arith)
            requires BINADE * w <= h * w + low, low < w, 0 < w;
    }
}

proof fn lemma_exact(p: int, q: int, m: int, e: int, j: int, len: int)
    requires
        0 < q,
        0 < m,
        -OFFSET <= e,
        measured(p, q, m, e, false),
        0 <= j <= e,
        0 < len <= 53,
        m < pow2(len as nat),
        pow2((len - 1) as nat) <= m,
        j == 53 - len || (j < 53 - len && j == e),
    ensures
        m * pow2(j as nat) < 2 * BINADE,
        m * pow2(j as nat) < 0x1_0000_0000_0000_0000_0000_0000_0000_0000,
        (m as u128) << (j as u128) == m * pow2(j as nat),
        near(p, q, (e - j) * BINADE + m * pow2(j as nat)),
{
    let w = pow2(j as nat) as int;
    let h = m * w;
    let t = e - j;
    lemma_pow2_pos(j as nat);
    lemma_powers();
    lemma_pow2_adds(len as nat, j as nat);
    if len + j < 53 {
        lemma_pow2_strictly_increases((len + j) as nat, 53);
    }
    let g = pow2(len as nat) as int;
    assert(m * w < g * w) by (nonlinear_arith) requires m < g, 0 < w;
    assert(m < 2 * BINADE) by {
        if len < 53 {
            lemma_pow2_strictly_increases(len as nat, 53);
        }
    }
    lemma_shl(m as u128, j as u128);
    if t > 0 {
        lemma_pow2_adds((len - 1) as nat, j as nat);
        let f = pow2((len - 1) as nat) as int;
        assert(f * w <= m * w) by (nonlinear_arith) requires f <= m, 0 < w;
    }
    assert(0 <= h) by (nonlinear_arith) requires h == m * w, 0 < m, 0 < w;
    lemma_mag(t, h);
    let n = t * BINADE + h;
    let c = pow2(OFFSET as nat) as int;
    let d = pow2((e + OFFSET) as nat) as int;
    let v = pow2(t as nat) as int;
    lemma_pow2_pos(OFFSET as nat);
    lemma_pow2_adds(t as nat, (j + OFFSET) as nat);
    lemma_pow2_adds(j as nat, OFFSET as nat);
    assert(d == v * (w * c));
    assert(mag(n) == h * v);
    assert((mag(n) * q) * c == m * (q * d)) by (nonlinear_arith)
        requires mag(n) == m * w * v, d == v * (w * c), mag(n) == h * v, h == m * w;
    lemma_scale(mag(n) * q, p, c);
    lemma_mag_next(n);
    let a = mag(n);
    let b = mag(n + 1);
    assert((a + b) * q > 2 * (a * q)) by (nonlinear_arith) requires a < b, 0 < q;
    if 0 < n {
        lemma_mag_next(n - 1);
        let z = mag(n - 1);
        assert((z + a) * q < 2 * (a * q)) by (nonlinear_arith) requires z < a, 0 < q;
    }
}

proof fn lemma_tiny(p: int, q: int, m: int, e: int, s: int)
    requires
        0 < q,
        0 <= m < 0x4000_0000_0000_0000_0000_0000_0000_0000,
        -OFFSET <= e,
        exists|rest: bool| measured(p, q, m, e, rest),
        127 <= s,
        s == -e,
    ensures
        rounds(p, q, 0),
{
    let c = pow2(OFFSET as nat) as int;
    let d = pow2((e + OFFSET) as nat) as int;
    let w = pow2(s as nat) as int;
    lemma_pow2_pos(OFFSET as nat);
    lemma_pow2_pos((e + OFFSET) as nat);
    lemma_pow2_adds((e + OFFSET) as nat, s as nat);
    lemma_powers();
    if 127 < s {
        lemma_pow2_strictly_increases(127, s as nat);
    }
    assert(d * w == c);
    let unit = q * d;
    assert(p * c < (m + 1) * unit);
    assert(2 * (p * c) < q * c) by (nonlinear_arith)
        requires p * c < (m + 1) * (q * d), d * w == c, 2 * (m + 1) <= w, 0 < q, 0 < d;
    assert((2 * p) * c == 2 * (p * c)) by (nonlinear_arith);
    lemma_scale(2 * p, q, c);
    assert(mag(0) == 0 && mag(1) == 1);
    assert((mag(0) + mag(1)) * q == q);
}

} // verus!
