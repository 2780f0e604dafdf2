//! What the caller supplies: the elementary functions, the printing of numbers and the
//! function to be minimised.
//!
//! Each is a closure that gives one answer to one question. Contracts speak of those
//! answers by name, so that they are exact whatever the functions are.
use vstd::prelude::*;
use crate::number::{feq, fle, flt, lit, Real};
use crate::number::arith::fmul;
use crate::number::consts::{EIGHT, HUNDRED_TWENTY_EIGHT, MINUS_EIGHT, MINUS_HUNDRED_TWENTY_EIGHT,
    ONE, ZERO};
use vstd::arithmetic::power2::pow2;

verus! {

/// A question to the elementary functions.
#[derive(Clone, Copy, Debug)]
pub enum Call {
    Exp(Real),
    Ln(Real),
    Log10(Real),
    /// Ten to the given power.
    Pow10(Real),
    Sqrt(Real),
    Hypot(Real, Real),
}

/// A question to the printer of numbers.
#[derive(Clone, Copy, Debug)]
pub enum Print {
    /// The shortest decimal that reads back as the number.
    Plain(Real),
    /// The number with three decimals.
    Fixed3(Real),
}

/// Whether the closure answers every question, and each in one way.
pub open spec fn is_math<M: Fn(Call) -> Real>(math: M) -> bool {
    &&& forall|c: Call| call_requires(math, (c,))
    &&& forall|c: Call, r: Real, s: Real|
        call_ensures(math, (c,), r) && call_ensures(math, (c,), s) ==> r == s
}

/// The closure's answer.
pub open spec fn answer<M: Fn(Call) -> Real>(math: M, c: Call) -> Real {
    choose|r: Real| call_ensures(math, (c,), r)
}

pub fn ask<M: Fn(Call) -> Real>(math: &M, c: Call) -> (r: Real)
    requires
        is_math(*math),
    ensures
        r == answer(*math, c),
{
    math(c)
}

/// What the laws ask of the elementary functions: the exponential is never negative, at most
/// 1 up to 0, and a positive finite number from -8 to 8; the logarithms lie on the side of 0
/// on which their argument lies of 1; a square root is never negative, and neither is a power
/// of ten; and all but the root keep the order.
pub open spec fn is_faithful<M: Fn(Call) -> Real>(math: M) -> bool {
    &&& forall|x: Real| !x.nan() ==> fle(lit(ZERO), #[trigger] answer(math, Call::Exp(x)))
    &&& forall|x: Real| fle(x, lit(ZERO)) ==> fle(#[trigger] answer(math, Call::Exp(x)), lit(ONE))
    &&& forall|x: Real|
        fle(lit(MINUS_EIGHT), x) && fle(x, lit(EIGHT)) ==> flt(
            lit(ZERO),
            #[trigger] answer(math, Call::Exp(x)),
        ) && answer(math, Call::Exp(x)).finite()
    &&& forall|x: Real, y: Real|
        fle(x, y) ==> fle(
            #[trigger] answer(math, Call::Exp(x)),
            #[trigger] answer(math, Call::Exp(y)),
        )
    &&& forall|x: Real| fle(lit(ONE), x) ==> fle(lit(ZERO), #[trigger] answer(math, Call::Ln(x)))
    &&& forall|x: Real|
        fle(lit(ZERO), x) && fle(x, lit(ONE)) ==> fle(
            #[trigger] answer(math, Call::Ln(x)),
            lit(ZERO),
        )
    &&& forall|x: Real, y: Real|
        fle(lit(ZERO), x) && fle(x, y) ==> fle(
            #[trigger] answer(math, Call::Ln(x)),
            #[trigger] answer(math, Call::Ln(y)),
        )
    &&& forall|x: Real, y: Real|
        fle(lit(ZERO), x) && fle(x, y) ==> fle(
            #[trigger] answer(math, Call::Log10(x)),
            #[trigger] answer(math, Call::Log10(y)),
        )
    &&& forall|x: Real| fle(lit(ZERO), x) ==> fle(lit(ZERO), #[trigger] answer(math, Call::Sqrt(x)))
    &&& forall|x: Real| !x.nan() ==> fle(lit(ZERO), #[trigger] answer(math, Call::Pow10(x)))
    &&& forall|x: Real, y: Real|
        fle(x, y) ==> fle(
            #[trigger] answer(math, Call::Pow10(x)),
            #[trigger] answer(math, Call::Pow10(y)),
        )
}

/// Whether the powers of ten tell any two numbers apart that lie between -128 and 128 and
/// differ by 2^-50 or more.
pub open spec fn tells_powers_apart<M: Fn(Call) -> Real>(math: M) -> bool {
    forall|x: Real, y: Real|
        fle(lit(MINUS_HUNDRED_TWENTY_EIGHT), x) && fle(y, lit(HUNDRED_TWENTY_EIGHT)) && y.value()
            - x.value() >= pow2(1024) && fle(x, y) ==> flt(
            #[trigger] answer(math, Call::Pow10(x)),
            #[trigger] answer(math, Call::Pow10(y)),
        )
}

/// 2^-500
pub const SMALL: u64 = 0x20b0_0000_0000_0000;

/// 2^500
pub const LARGE: u64 = 0x5f30_0000_0000_0000;

/// Whether a number is positive and of ordinary size.
pub open spec fn of_ordinary_size(x: Real) -> bool {
    fle(lit(SMALL), x) && fle(x, lit(LARGE))
}

/// Whether the square root keeps the order, is 0 of 0, and gives back a number of ordinary
/// size from its square.
pub open spec fn takes_roots<M: Fn(Call) -> Real>(math: M) -> bool {
    &&& forall|x: Real, y: Real|
        fle(lit(ZERO), x) && fle(x, y) ==> fle(
            #[trigger] answer(math, Call::Sqrt(x)),
            #[trigger] answer(math, Call::Sqrt(y)),
        )
    &&& forall|x: Real| x.zero() ==> (#[trigger] answer(math, Call::Sqrt(x))).zero()
    &&& forall|x: Real|
        of_ordinary_size(x) ==> #[trigger] answer(math, Call::Sqrt(fmul(x, x))) == x
}

/// Whether the hypotenuse is no shorter than its legs, and a leg where the other is 0.
pub open spec fn spans_legs<M: Fn(Call) -> Real>(math: M) -> bool {
    &&& forall|x: Real, y: Real|
        fle(lit(ZERO), x) && fle(lit(ZERO), y) ==> fle(
            x,
            #[trigger] answer(math, Call::Hypot(x, y)),
        ) && fle(y, answer(math, Call::Hypot(x, y)))
    &&& forall|x: Real, y: Real|
        fle(lit(ZERO), x) && y.zero() ==> feq(#[trigger] answer(math, Call::Hypot(x, y)), x)
    &&& forall|x: Real, y: Real|
        x.zero() && fle(lit(ZERO), y) ==> feq(#[trigger] answer(math, Call::Hypot(x, y)), y)
}

/// Whether the closure prints every number, and each in one way.
pub open spec fn is_printer<S: Fn(Print) -> String>(show: S) -> bool {
    &&& forall|c: Print| call_requires(show, (c,))
    &&& forall|c: Print, r: String, s: String|
        call_ensures(show, (c,), r) && call_ensures(show, (c,), s) ==> r@ == s@
}

/// The text that the closure prints.
pub open spec fn printed<S: Fn(Print) -> String>(show: S, c: Print) -> Seq<char> {
    (choose|r: String| call_ensures(show, (c,), r))@
}

pub fn print<S: Fn(Print) -> String>(show: &S, c: Print) -> (r: String)
    requires
        is_printer(*show),
    ensures
        r@ == printed(*show, c),
{
    let r = show(c);
    proof {
        let s = choose|s: String| call_ensures(*show, (c,), s);
        assert(call_ensures(*show, (c,), s));
    }
    r
}

/// Whether the closure has a value at every point, which depends on the point alone.
pub open spec fn is_objective<F: Fn(&Vec<Real>) -> Real>(f: F) -> bool {
    &&& forall|x: &Vec<Real>| call_requires(f, (x,))
    &&& forall|x: &Vec<Real>, y: &Vec<Real>, r: Real, s: Real|
        x@ == y@ && call_ensures(f, (x,), r) && call_ensures(f, (y,), s) ==> r == s
}

/// Whether `g` tells the closure's value at every point of `n` coordinates.
pub open spec fn models<F: Fn(&Vec<Real>) -> Real>(f: F, g: spec_fn(Seq<Real>) -> Real, n: nat) -> bool {
    &&& forall|x: &Vec<Real>| x@.len() == n ==> call_requires(f, (x,))
    &&& forall|x: &Vec<Real>, r: Real| x@.len() == n && call_ensures(f, (x,), r) ==> r == g(x@)
}

pub open spec fn has_value<F: Fn(&Vec<Real>) -> Real>(f: F, x: Seq<Real>, r: Real) -> bool {
    exists|v: &Vec<Real>| v@ == x && call_ensures(f, (v,), r)
}

/// The closure's values.
pub open spec fn values<F: Fn(&Vec<Real>) -> Real>(f: F) -> spec_fn(Seq<Real>) -> Real {
    |x: Seq<Real>| choose|r: Real| has_value(f, x, r)
}

pub proof fn lemma_values<F: Fn(&Vec<Real>) -> Real>(f: F, n: nat)
    requires
        is_objective(f),
    ensures
        models(f, values(f), n),
{
    assert forall|x: &Vec<Real>, r: Real| x@.len() == n && call_ensures(f, (x,), r) implies r == values(f)(x@) by {
        assert(has_value(f, x@, r));
        let s = values(f)(x@);
        assert(has_value(f, x@, s));
        let v = choose|v: &Vec<Real>| v@ == x@ && call_ensures(f, (v,), s);
        assert(x@ == v@ && call_ensures(f, (x,), r) && call_ensures(f, (v,), s));
    }
}

pub(crate) fn evaluate_at<F: Fn(&Vec<Real>) -> Real>(
    f: &F,
    x: &Vec<Real>,
    Ghost(g): Ghost<spec_fn(Seq<Real>) -> Real>,
) -> (r:
    Real)
    requires
        models(*f, g, x@.len()),
    ensures
        r == g(x@),
{
    f(x)
}

} // verus!
