//! The two forms of the shared curve, and the map from the searched values to parameters
//! within bounds.
use vstd::prelude::*;
use crate::host::{answer, ask, is_faithful, is_math, Call};
use crate::number::{fle, flt, fneg, lit, mag, Real, BINADE};
use crate::number::arith::{fadd, fdiv, fmul, fsub};
use crate::number::consts::{HALF, MINUS_HALF, MINUS_ONE, ONE, ZERO};
use crate::number::order::{law_commutes, law_negation, law_product_monotone, law_range_from_zero,
    law_reach, law_reciprocal, law_reciprocal_falls, law_rounding_exact, law_share_at_most,
    law_sum_monotone, law_symmetric_range};
use crate::number::rounding::lemma_mag;
use crate::text::{same, views};
use vstd::arithmetic::power2::{lemma_pow2_pos, lemma_pow2_unfold, pow2};

verus! {

/// 35, beyond which a searched value is cut off.
pub const SEARCH_HIGH: u64 = 0x4041_8000_0000_0000;

/// -35
pub const SEARCH_LOW: u64 = 0xc041_8000_0000_0000;

/// 60
pub const SIXTY: u64 = 0x404e_0000_0000_0000;

/// 10000
pub const TEN_THOUSAND: u64 = 0x40c3_8800_0000_0000;

/// 30000
pub const THIRTY_THOUSAND: u64 = 0x40dd_4c00_0000_0000;

/// 20000
pub const TWENTY_THOUSAND: u64 = 0x40d3_8800_0000_0000;

/// -20000
pub const MINUS_TWENTY_THOUSAND: u64 = 0xc0d3_8800_0000_0000;

/// 30
pub const THIRTY: u64 = 0x403e_0000_0000_0000;

/// -30
pub const MINUS_THIRTY: u64 = 0xc03e_0000_0000_0000;

/// 20
pub const TWENTY: u64 = 0x4034_0000_0000_0000;

/// -20
pub const MINUS_TWENTY: u64 = 0xc034_0000_0000_0000;

/// 0.05
pub const TWENTIETH: u64 = 0x3fa9_9999_9999_999a;

/// 20 / 60: where `C_LM` starts within its bounds.
pub const START_C: u64 = 0x3fd5_5555_5555_5555;

/// 9500 / 20000: where `a0` starts within its bounds.
pub const START_A0: u64 = 0x3fde_6666_6666_6666;

/// 17 / 60: where `a1` starts within its bounds.
pub const START_A1: u64 = 0x3fd2_2222_2222_2222;

/// 0.01 / 0.05: where `a2` starts within its bounds.
pub const START_A2: u64 = 0x3fc9_9999_9999_9999;

/// 25 / 60: where `beta` starts within its bounds.
pub const START_BETA: u64 = 0x3fda_aaaa_aaaa_aaab;

/// 14 / 40: where `gamma` starts within its bounds.
pub const START_GAMMA: u64 = 0x3fd6_6666_6666_6666;

/// 0.52: where `q` starts within its bounds.
pub const START_Q: u64 = 0x3fe0_a3d7_0a3d_70a4;

/// 28000 / 40000: where `alpha` starts within its bounds.
pub const START_ALPHA: u64 = 0x3fe6_6666_6666_6666;

/// The logistic function.
pub open spec fn sigmoid_of<M: Fn(Call) -> Real>(math: M, u: Real) -> Real {
    fdiv(lit(ONE), fadd(lit(ONE), answer(math, Call::Exp(fneg(u)))))
}

pub fn sigmoid<M: Fn(Call) -> Real>(math: &M, u: Real) -> (r: Real)
    requires
        is_math(*math),
    ensures
        r == sigmoid_of(*math, u),
{
    lit(ONE).over(lit(ONE).plus(ask(math, Call::Exp(u.negated()))))
}

/// The inverse of the logistic function.
pub open spec fn logit_of<M: Fn(Call) -> Real>(math: M, p: Real) -> Real {
    answer(math, Call::Ln(fdiv(p, fsub(lit(ONE), p))))
}

pub fn logit<M: Fn(Call) -> Real>(math: &M, p: Real) -> (r: Real)
    requires
        is_math(*math),
    ensures
        r == logit_of(*math, p),
{
    ask(math, Call::Ln(p.over(lit(ONE).minus(p))))
}

/// `x`, or the bound that it passes.
pub open spec fn fclamp(x: Real, low: Real, high: Real) -> Real {
    if flt(x, low) {
        low
    } else if flt(high, x) {
        high
    } else {
        x
    }
}

pub fn clamp(x: Real, low: Real, high: Real) -> (r: Real)
    ensures
        r == fclamp(x, low, high),
{
    if x.lt(low) {
        low
    } else if high.lt(x) {
        high
    } else {
        x
    }
}

/// The parameter between `lo` and `up` that a searched value stands for.
pub open spec fn map_param_of<M: Fn(Call) -> Real>(math: M, u: Real, lo: Real, up: Real) -> Real {
    fadd(
        lo,
        fmul(fsub(up, lo), sigmoid_of(math, fclamp(u, lit(SEARCH_LOW), lit(SEARCH_HIGH)))),
    )
}

pub fn map_param<M: Fn(Call) -> Real>(math: &M, u: Real, lo: Real, up: Real) -> (r: Real)
    requires
        is_math(*math),
    ensures
        r == map_param_of(*math, u, lo, up),
{
    lo.plus(up.minus(lo).times(sigmoid(math, clamp(u, lit(SEARCH_LOW), lit(SEARCH_HIGH)))))
}

/// The form of the shared curve.
///
/// * `Lm`: `log10 t = (a0 + a1 s + a2 s^2) / T - C` in the stress `s`.
/// * `Cx`: `log10 t = beta + gamma x + (q / 2) x^2 + alpha / T` in `x = log10 s`.
#[derive(Clone, Copy, Debug, PartialEq, Eq, Structural)]
pub enum MasterModel {
    Lm,
    Cx,
}

impl MasterModel {
    /// The form that a name stands for.
    pub open spec fn named(s: Seq<char>) -> Option<MasterModel> {
        if s == "LM"@ {
            Some(MasterModel::Lm)
        } else if s == "CX"@ {
            Some(MasterModel::Cx)
        } else {
            None
        }
    }

    pub fn parse(s: &str) -> (r: Option<MasterModel>)
        ensures
            r == MasterModel::named(s@),
    {
        if same(s, "LM") {
            Some(MasterModel::Lm)
        } else if same(s, "CX") {
            Some(MasterModel::Cx)
        } else {
            None
        }
    }

    /// The number of parameters of the curve.
    #[verifier::allow_in_spec]
    pub fn n_master(self) -> usize
        returns
            4usize,
    {
        4
    }

    pub open spec fn names(self) -> Seq<Seq<char>> {
        match self {
            MasterModel::Lm => seq!["C_LM"@, "a0"@, "a1"@, "a2"@],
            MasterModel::Cx => seq!["beta"@, "gamma"@, "q"@, "alpha"@],
        }
    }

    pub fn master_names(self) -> (r: Vec<String>)
        ensures
            views(r@) == self.names(),
            r@.len() == 4,
    {
        let r: Vec<String> = match self {
            MasterModel::Lm => vec![
                "C_LM".to_owned(),
                "a0".to_owned(),
                "a1".to_owned(),
                "a2".to_owned(),
            ],
            MasterModel::Cx => vec![
                "beta".to_owned(),
                "gamma".to_owned(),
                "q".to_owned(),
                "alpha".to_owned(),
            ],
        };
        proof {
            assert(views(r@) =~= self.names());
        }
        r
    }

    /// Where the search starts.
    pub open spec fn start_of<M: Fn(Call) -> Real>(self, math: M) -> Seq<Real> {
        match self {
            MasterModel::Lm => seq![
                logit_of(math, lit(START_C)),
                logit_of(math, lit(START_A0)),
                logit_of(math, lit(START_A1)),
                logit_of(math, lit(START_A2)),
            ],
            MasterModel::Cx => seq![
                logit_of(math, lit(START_BETA)),
                logit_of(math, lit(START_GAMMA)),
                logit_of(math, lit(START_Q)),
                logit_of(math, lit(START_ALPHA)),
            ],
        }
    }

    pub fn start<M: Fn(Call) -> Real>(self, math: &M) -> (r: Vec<Real>)
        requires
            is_math(*math),
        ensures
            r@ == self.start_of(*math),
            r@.len() == 4,
    {
        match self {
            MasterModel::Lm => vec![
                logit(math, lit(START_C)),
                logit(math, lit(START_A0)),
                logit(math, lit(START_A1)),
                logit(math, lit(START_A2)),
            ],
            MasterModel::Cx => vec![
                logit(math, lit(START_BETA)),
                logit(math, lit(START_GAMMA)),
                logit(math, lit(START_Q)),
                logit(math, lit(START_ALPHA)),
            ],
        }
    }

    /// The bounds of the parameters.
    pub open spec fn bounds_of(self) -> Seq<(Real, Real)> {
        match self {
            MasterModel::Lm => seq![
                (lit(ZERO), lit(SIXTY)),
                (lit(TEN_THOUSAND), lit(THIRTY_THOUSAND)),
                (lit(MINUS_THIRTY), lit(THIRTY)),
                (lit(ZERO), lit(TWENTIETH)),
            ],
            MasterModel::Cx => seq![
                (lit(MINUS_THIRTY), lit(THIRTY)),
                (lit(MINUS_TWENTY), lit(TWENTY)),
                (lit(MINUS_HALF), lit(HALF)),
                (lit(MINUS_TWENTY_THOUSAND), lit(TWENTY_THOUSAND)),
            ],
        }
    }

    pub fn bounds(self) -> (r: Vec<(Real, Real)>)
        ensures
            r@ == self.bounds_of(),
            r@.len() == 4,
    {
        match self {
            MasterModel::Lm => vec![
                (lit(ZERO), lit(SIXTY)),
                (lit(TEN_THOUSAND), lit(THIRTY_THOUSAND)),
                (lit(MINUS_THIRTY), lit(THIRTY)),
                (lit(ZERO), lit(TWENTIETH)),
            ],
            MasterModel::Cx => vec![
                (lit(MINUS_THIRTY), lit(THIRTY)),
                (lit(MINUS_TWENTY), lit(TWENTY)),
                (lit(MINUS_HALF), lit(HALF)),
                (lit(MINUS_TWENTY_THOUSAND), lit(TWENTY_THOUSAND)),
            ],
        }
    }

    /// The mean log10 life without a heat's offset.
    pub open spec fn mean_of(self, m: Seq<Real>, tk: Real, x: Real) -> Real {
        match self {
            MasterModel::Lm => fsub(
                fdiv(fadd(fadd(m[1], fmul(m[2], x)), fmul(fmul(m[3], x), x)), tk),
                m[0],
            ),
            MasterModel::Cx => fadd(
                fadd(fadd(m[0], fmul(m[1], x)), fmul(fmul(fmul(lit(HALF), m[2]), x), x)),
                fdiv(m[3], tk),
            ),
        }
    }

    pub fn mean(self, m: &Vec<Real>, tk: Real, x: Real) -> (r: Real)
        requires
            m@.len() == 4,
        ensures
            r == self.mean_of(m@, tk, x),
    {
        match self {
            MasterModel::Lm => m[1].plus(m[2].times(x)).plus(m[3].times(x).times(x)).over(tk).minus(m[0]),
            MasterModel::Cx => m[0].plus(m[1].times(x)).plus(
                lit(HALF).times(m[2]).times(x).times(x),
            ).plus(m[3].over(tk)),
        }
    }

    /// The derivatives of the mean by the parameters.
    pub open spec fn grad_of(self, tk: Real, x: Real) -> Seq<Real> {
        match self {
            MasterModel::Lm => seq![
                lit(MINUS_ONE),
                fdiv(lit(ONE), tk),
                fdiv(x, tk),
                fdiv(fmul(x, x), tk),
            ],
            MasterModel::Cx => seq![
                lit(ONE),
                x,
                fmul(fmul(lit(HALF), x), x),
                fdiv(lit(ONE), tk),
            ],
        }
    }

    pub fn grad_mean(self, tk: Real, x: Real) -> (r: Vec<Real>)
        ensures
            r@ == self.grad_of(tk, x),
            r@.len() == 4,
    {
        match self {
            MasterModel::Lm => vec![
                lit(MINUS_ONE),
                lit(ONE).over(tk),
                x.over(tk),
                x.times(x).over(tk),
            ],
            MasterModel::Cx => vec![lit(ONE), x, lit(HALF).times(x).times(x), lit(ONE).over(tk)],
        }
    }
}

/// Whether the length of a range, added to its start, gives its end.
pub open spec fn is_exact_range(lo: Real, up: Real) -> bool {
    &&& lo.finite()
    &&& fsub(up, lo).finite()
    &&& fle(lit(ZERO), fsub(up, lo))
    &&& fadd(lo, fsub(up, lo)) == up
}

/// A searched value stands for a parameter within the bounds, whatever the value is.
pub proof fn law_mapped_within<M: Fn(Call) -> Real>(math: M, u: Real, lo: Real, up: Real)
    requires
        is_faithful(math),
        !u.nan(),
        is_exact_range(lo, up),
    ensures
        fle(lo, map_param_of(math, u, lo, up)),
        fle(map_param_of(math, u, lo, up), up),
{
    let c = fclamp(u, lit(SEARCH_LOW), lit(SEARCH_HIGH));
    let e = answer(math, Call::Exp(fneg(c)));
    assert(!fneg(c).nan());
    assert(fle(lit(ZERO), e));
    law_reach(lit(ONE), e);
    let d = fadd(lit(ONE), e);
    law_reciprocal(d);
    let s = sigmoid_of(math, c);
    let range = fsub(up, lo);
    law_share_at_most(range, s);
    let part = fmul(range, s);
    law_reach(lo, part);
    law_sum_monotone(part, range, lo);
    law_commutes(part, lo);
    law_commutes(range, lo);
}

/// Every bound of the curve is an exact range.
proof fn lemma_bounds_exact(model: MasterModel, i: int)
    requires
        0 <= i < 4,
    ensures
        is_exact_range(model.bounds_of()[i].0, model.bounds_of()[i].1),
{
    law_range_from_zero(lit(SIXTY));
    law_range_from_zero(lit(TWENTIETH));
    law_symmetric_range(lit(THIRTY));
    law_symmetric_range(lit(TWENTY));
    law_symmetric_range(lit(HALF));
    law_symmetric_range(lit(TWENTY_THOUSAND));
    assert(fneg(lit(THIRTY)) == lit(MINUS_THIRTY));
    assert(fneg(lit(TWENTY)) == lit(MINUS_TWENTY));
    assert(fneg(lit(HALF)) == lit(MINUS_HALF));
    assert(fneg(lit(TWENTY_THOUSAND)) == lit(MINUS_TWENTY_THOUSAND));
    lemma_thousands();
}

/// 30000 - 10000 is 20000, and 10000 + 20000 is 30000.
proof fn lemma_thousands()
    ensures
        is_exact_range(lit(TEN_THOUSAND), lit(THIRTY_THOUSAND)),
{
    let b = BINADE as int;
    let t: int = 1035;
    let h1: int = TEN_THOUSAND - t * b;
    let h3: int = THIRTY_THOUSAND - (t + 1) * b;
    lemma_mag(t, h1);
    lemma_mag(t + 1, h1);
    lemma_mag(t + 1, h3);
    lemma_pow2_unfold((t + 1) as nat);
    lemma_pow2_pos(t as nat);
    let w = pow2(t as nat) as int;
    assert(h1 * (2 * w) == 2 * (h1 * w)) by (nonlinear_arith);
    assert(h3 * (2 * w) == 3 * (h1 * w)) by (nonlinear_arith)
        requires
            2 * h3 == 3 * h1,
    ;
    assert(0 < h1 * w) by (nonlinear_arith)
        requires
            0 < h1,
            0 < w,
    ;
    assert(mag(TEN_THOUSAND as int) == h1 * w);
    assert(mag(TWENTY_THOUSAND as int) == 2 * (h1 * w));
    assert(mag(THIRTY_THOUSAND as int) == 3 * (h1 * w));
    law_rounding_exact(TWENTY_THOUSAND as int);
    law_rounding_exact(THIRTY_THOUSAND as int);
    assert(fneg(lit(TEN_THOUSAND)).value() == -(h1 * w));
    assert(fsub(lit(THIRTY_THOUSAND), lit(TEN_THOUSAND)) == lit(TWENTY_THOUSAND));
}

/// The parameters of the curve always lie within their bounds.
pub proof fn law_parameters_within_bounds<M: Fn(Call) -> Real>(math: M, model: MasterModel, u: Real, i: int)
    requires
        is_faithful(math),
        !u.nan(),
        0 <= i < 4,
    ensures
        ({
            let (lo, up) = model.bounds_of()[i];
            fle(lo, map_param_of(math, u, lo, up)) && fle(map_param_of(math, u, lo, up), up)
        }),
{
    lemma_bounds_exact(model, i);
    let (lo, up) = model.bounds_of()[i];
    law_mapped_within(math, u, lo, up);
}

/// The parameter rises with the searched value that stands for it.
pub proof fn law_mapped_rises<M: Fn(Call) -> Real>(math: M, u: Real, v: Real, lo: Real, up: Real)
    requires
        is_faithful(math),
        fle(u, v),
        is_exact_range(lo, up),
        flt(lit(ZERO), fsub(up, lo)),
    ensures
        fle(map_param_of(math, u, lo, up), map_param_of(math, v, lo, up)),
{
    let (c, d) = (
        fclamp(u, lit(SEARCH_LOW), lit(SEARCH_HIGH)),
        fclamp(v, lit(SEARCH_LOW), lit(SEARCH_HIGH)),
    );
    assert(fle(c, d));
    law_negation(c, d);
    let (x, y) = (answer(math, Call::Exp(fneg(c))), answer(math, Call::Exp(fneg(d))));
    assert(fle(y, x));
    law_reach(lit(ONE), y);
    law_sum_monotone(y, x, lit(ONE));
    law_commutes(y, lit(ONE));
    law_commutes(x, lit(ONE));
    law_reciprocal_falls(fadd(lit(ONE), y), fadd(lit(ONE), x));
    law_reach(lit(ONE), x);
    law_reciprocal(fadd(lit(ONE), x));
    let (s, t) = (sigmoid_of(math, c), sigmoid_of(math, d));
    let range = fsub(up, lo);
    law_product_monotone(s, t, range);
    law_commutes(s, range);
    law_commutes(t, range);
    law_sum_monotone(fmul(range, s), fmul(range, t), lo);
    law_commutes(fmul(range, s), lo);
    law_commutes(fmul(range, t), lo);
}

} // verus!
