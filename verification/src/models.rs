//! The restricted forms of the master curve. Lives are modelled on the log10 scale.
//!
//! * Larson-Miller: `T (C + y) = b0 + b1 s + b2 y` with `C` fixed at 20, so that
//!   `y = (T C - b0 - b1 s) / (b2 - T)`, and `b2` is held above every temperature.
//! * Custom: `y = b0 + b1 s' + b2 s'^2 + b3 T' + b4 T'^2` in scaled stress and
//!   temperature, with the quadratic terms held at or below zero.
use vstd::prelude::*;
use crate::host::{answer, ask, is_faithful, is_math, Call};
use vstd::arithmetic::div_mod::lemma_fundamental_div_mod;
use vstd::arithmetic::power2::{lemma2_to64_rest, lemma_pow2_adds, lemma_pow2_strictly_increases,
    pow2};
use crate::number::{fle, flt, fneg, lit, Real, BINADE};
use crate::number::arith::{fadd, fdiv, fmul, fsub};
use crate::number::consts::{ONE, ZERO};
use crate::number::order::{law_sum_grows, law_sum_is_number, law_sum_strictly_grows};
use crate::number::rounding::{binade_of, lemma_mag, lemma_mag_monotone};
use crate::text::same;

verus! {

#[derive(Clone, Copy, Debug, PartialEq, Eq, Structural)]
pub enum ModelKind {
    LarsonMiller,
    Custom,
}

/// The Larson-Miller constant: 20
pub const LM_C: u64 = 0x4034_0000_0000_0000;

/// 40, beyond which `softplus` is the identity.
pub const SOFTPLUS_LINEAR: u64 = 0x4044_0000_0000_0000;

/// 50, the least distance of `b2` from the highest temperature.
pub const B2_MARGIN: u64 = 0x4049_0000_0000_0000;

/// 2^50, a temperature beyond all that occur.
pub const TWO_50: u64 = 0x4310_0000_0000_0000;

/// 3.5
pub const START_B0: u64 = 0x400c_0000_0000_0000;

/// -2
pub const START_QUADRATIC: u64 = 0xc000_0000_0000_0000;

/// Centre and spread of the temperatures and the stresses.
#[derive(Clone, Copy, Debug)]
pub struct Scale {
    pub t0: Real,
    pub td: Real,
    pub s0: Real,
    pub sd: Real,
}

impl ModelKind {
    /// The model that a name stands for.
    pub open spec fn named(s: Seq<char>) -> Option<ModelKind> {
        if s == "larson_miller"@ || s == "lm"@ {
            Some(ModelKind::LarsonMiller)
        } else if s == "custom"@ {
            Some(ModelKind::Custom)
        } else {
            None
        }
    }

    pub fn parse(s: &str) -> (r: Option<ModelKind>)
        ensures
            r == ModelKind::named(s@),
    {
        if same(s, "larson_miller") || same(s, "lm") {
            Some(ModelKind::LarsonMiller)
        } else if same(s, "custom") {
            Some(ModelKind::Custom)
        } else {
            None
        }
    }
}

/// The number of parameters of the curve itself.
#[verifier::allow_in_spec]
pub fn n_base(kind: ModelKind) -> usize
    returns
        (match kind {
            ModelKind::LarsonMiller => 3usize,
            ModelKind::Custom => 5usize,
        }),
{
    match kind {
        ModelKind::LarsonMiller => 3,
        ModelKind::Custom => 5,
    }
}

/// `ln(1 + e^x)`, which is `x` for large `x`.
pub open spec fn softplus_of<M: Fn(Call) -> Real>(math: M, x: Real) -> Real {
    if flt(lit(SOFTPLUS_LINEAR), x) {
        x
    } else {
        answer(math, Call::Ln(fadd(lit(ONE), answer(math, Call::Exp(x)))))
    }
}

pub fn softplus<M: Fn(Call) -> Real>(math: &M, x: Real) -> (r: Real)
    requires
        is_math(*math),
    ensures
        r == softplus_of(*math, x),
{
    if lit(SOFTPLUS_LINEAR).lt(x) {
        x
    } else {
        ask(math, Call::Ln(lit(ONE).plus(ask(math, Call::Exp(x)))))
    }
}

/// The parameters of the curve that the unconstrained values `base` stand for.
pub open spec fn physical_of<M: Fn(Call) -> Real>(
    math: M,
    kind: ModelKind,
    base: Seq<Real>,
    temp_max_k: Real,
) -> Seq<Real> {
    match kind {
        ModelKind::LarsonMiller => seq![
            base[0],
            base[1],
            fadd(fadd(temp_max_k, lit(B2_MARGIN)), softplus_of(math, base[2])),
        ],
        ModelKind::Custom => seq![
            base[0],
            base[1],
            fneg(softplus_of(math, base[2])),
            base[3],
            fneg(softplus_of(math, base[4])),
        ],
    }
}

pub fn physical<M: Fn(Call) -> Real>(math: &M, kind: ModelKind, base: &Vec<Real>, temp_max_k: Real) -> (r:
    Vec<Real>)
    requires
        is_math(*math),
        base@.len() >= n_base(kind),
    ensures
        r@ == physical_of(*math, kind, base@, temp_max_k),
        r@.len() == n_base(kind),
{
    match kind {
        ModelKind::LarsonMiller => vec![
            base[0],
            base[1],
            temp_max_k.plus(lit(B2_MARGIN)).plus(softplus(math, base[2])),
        ],
        ModelKind::Custom => vec![
            base[0],
            base[1],
            softplus(math, base[2]).negated(),
            base[3],
            softplus(math, base[4]).negated(),
        ],
    }
}

/// The mean log10 life at a temperature and a stress.
pub open spec fn mean_log_life_of(
    kind: ModelKind,
    p: Seq<Real>,
    temp_k: Real,
    stress: Real,
    scale: Scale,
) -> Real {
    match kind {
        ModelKind::LarsonMiller => fdiv(
            fsub(fsub(fmul(temp_k, lit(LM_C)), p[0]), fmul(p[1], stress)),
            fsub(p[2], temp_k),
        ),
        ModelKind::Custom => {
            let sn = fdiv(fsub(stress, scale.s0), scale.sd);
            let tn = fdiv(fsub(temp_k, scale.t0), scale.td);
            fadd(
                fadd(
                    fadd(fadd(p[0], fmul(p[1], sn)), fmul(fmul(p[2], sn), sn)),
                    fmul(p[3], tn),
                ),
                fmul(fmul(p[4], tn), tn),
            )
        },
    }
}

pub fn mean_log_life(kind: ModelKind, p: &Vec<Real>, temp_k: Real, stress: Real, scale: &Scale) -> (r: Real)
    requires
        p@.len() >= n_base(kind),
    ensures
        r == mean_log_life_of(kind, p@, temp_k, stress, *scale),
{
    match kind {
        ModelKind::LarsonMiller => temp_k.times(lit(LM_C)).minus(p[0]).minus(p[1].times(stress)).over(
            p[2].minus(temp_k),
        ),
        ModelKind::Custom => {
            let sn: Real = stress.minus(scale.s0).over(scale.sd);
            let tn: Real = temp_k.minus(scale.t0).over(scale.td);
            p[0].plus(p[1].times(sn)).plus(p[2].times(sn).times(sn)).plus(p[3].times(tn)).plus(
                p[4].times(tn).times(tn),
            )
        },
    }
}

/// Name, description and freedom of each parameter.
pub open spec fn meta_of(kind: ModelKind) -> Seq<(Seq<char>, Seq<char>, bool)> {
    match kind {
        ModelKind::LarsonMiller => seq![
            ("C"@, "固定 Larson-Miller 常数"@, false),
            ("b0"@, "截距"@, true),
            ("b1"@, "应力一次项"@, true),
            ("b2"@, "受限: b2 > Tmax+50 K"@, true),
        ],
        ModelKind::Custom => seq![
            ("b0"@, "截距"@, true),
            ("b1"@, "应力一次项"@, true),
            ("b2"@, "受限: 应力二次项 <= 0"@, true),
            ("b3"@, "温度一次项"@, true),
            ("b4"@, "受限: 温度二次项 <= 0"@, true),
        ],
    }
}

pub open spec fn meta_views(v: Seq<(String, String, bool)>) -> Seq<(Seq<char>, Seq<char>, bool)> {
    v.map_values(|m: (String, String, bool)| (m.0@, m.1@, m.2))
}

fn meta_row(name: &str, note: &str, free: bool) -> (r: (String, String, bool))
    ensures
        r.0@ == name@,
        r.1@ == note@,
        r.2 == free,
{
    (name.to_owned(), note.to_owned(), free)
}

pub fn param_meta(kind: ModelKind) -> (r: Vec<(String, String, bool)>)
    ensures
        meta_views(r@) == meta_of(kind),
{
    match kind {
        ModelKind::LarsonMiller => vec![
            meta_row("C", "固定 Larson-Miller 常数", false),
            meta_row("b0", "截距", true),
            meta_row("b1", "应力一次项", true),
            meta_row("b2", "受限: b2 > Tmax+50 K", true),
        ],
        ModelKind::Custom => vec![
            meta_row("b0", "截距", true),
            meta_row("b1", "应力一次项", true),
            meta_row("b2", "受限: 应力二次项 <= 0", true),
            meta_row("b3", "温度一次项", true),
            meta_row("b4", "受限: 温度二次项 <= 0", true),
        ],
    }
}

/// The unconstrained values from which a fit starts.
pub open spec fn initial_of(kind: ModelKind) -> Seq<Real> {
    match kind {
        ModelKind::LarsonMiller => seq![lit(ZERO), lit(ZERO), lit(ZERO)],
        ModelKind::Custom => seq![
            lit(START_B0),
            lit(ZERO),
            lit(START_QUADRATIC),
            lit(ZERO),
            lit(START_QUADRATIC),
        ],
    }
}

pub fn initial_raw(kind: ModelKind) -> (r: Vec<Real>)
    ensures
        r@ == initial_of(kind),
        r@.len() == n_base(kind),
{
    match kind {
        ModelKind::LarsonMiller => vec![lit(ZERO), lit(ZERO), lit(ZERO)],
        ModelKind::Custom => vec![
            lit(START_B0),
            lit(ZERO),
            lit(START_QUADRATIC),
            lit(ZERO),
            lit(START_QUADRATIC),
        ],
    }
}

proof fn lemma_softplus<M: Fn(Call) -> Real>(math: M, x: Real)
    requires
        is_faithful(math),
        !x.nan(),
    ensures
        fle(lit(ZERO), softplus_of(math, x)),
{
    let e = answer(math, Call::Exp(x));
    assert(fle(lit(ZERO), e));
    let sum = fadd(lit(ONE), e);
    assert(!sum.nan()) by {
        if e.finite() {
            law_sum_is_number(lit(ONE), e);
        }
    }
    law_sum_grows(lit(ONE), e);
}

/// The quadratic terms of the custom model are never positive, whatever the search tries.
pub proof fn law_quadratic_terms<M: Fn(Call) -> Real>(math: M, base: Seq<Real>, temp_max_k: Real)
    requires
        is_faithful(math),
        base.len() >= 5,
        !base[2].nan(),
        !base[4].nan(),
    ensures
        ({
            let p = physical_of(math, ModelKind::Custom, base, temp_max_k);
            fle(p[2], lit(ZERO)) && fle(p[4], lit(ZERO))
        }),
{
    lemma_softplus(math, base[2]);
    lemma_softplus(math, base[4]);
}

/// The denominator of the Larson-Miller form keeps its distance: `b2` is at least 50 above
/// the highest temperature, whatever the search tries.
pub proof fn law_b2_above_temperatures<M: Fn(Call) -> Real>(math: M, base: Seq<Real>, temp_max_k: Real)
    requires
        is_faithful(math),
        base.len() >= 3,
        !base[2].nan(),
        temp_max_k.finite(),
    ensures
        fle(
            fadd(temp_max_k, lit(B2_MARGIN)),
            physical_of(math, ModelKind::LarsonMiller, base, temp_max_k)[2],
        ),
{
    let low = fadd(temp_max_k, lit(B2_MARGIN));
    let s = softplus_of(math, base[2]);
    lemma_softplus(math, base[2]);
    law_sum_is_number(temp_max_k, lit(B2_MARGIN));
    law_sum_grows(temp_max_k, lit(B2_MARGIN));
    assert(!fadd(low, s).nan()) by {
        if low.finite() && s.finite() {
            law_sum_is_number(low, s);
        }
    }
    law_sum_grows(low, s);
}

/// The denominator of the Larson-Miller form is never zero and never changes its sign: `b2`
/// is above every temperature up to the highest, which is taken to be below 2^50.
pub proof fn law_b2_exceeds_temperatures<M: Fn(Call) -> Real>(
    math: M,
    base: Seq<Real>,
    temp_max_k: Real,
    temp_k: Real,
)
    requires
        is_faithful(math),
        base.len() >= 3,
        !base[2].nan(),
        fle(lit(ZERO), temp_max_k),
        flt(temp_max_k, lit(TWO_50)),
        fle(temp_k, temp_max_k),
    ensures
        flt(temp_k, physical_of(math, ModelKind::LarsonMiller, base, temp_max_k)[2]),
{
    let n = temp_max_k.size();
    let b = BINADE as int;
    let t = binade_of(n);
    let h = n - t * b;
    assert(n < TWO_50);
    if n >= 2 * b {
        lemma_fundamental_div_mod(n, b);
        assert(n / b >= 2) by (nonlinear_arith)
            requires
                n >= 2 * b,
                b == 0x0010_0000_0000_0000,
        ;
        assert(n / b <= 1073) by (nonlinear_arith)
            requires
                n < 1074 * b,
                b == 0x0010_0000_0000_0000,
        ;
        assert(h == n % b + b) by (nonlinear_arith)
            requires
                n == b * (n / b) + n % b,
                h == n - (n / b - 1) * b,
        ;
    }
    lemma_mag(t, h);
    lemma_mag(t, h + 1);
    let w = pow2(t as nat) as int;
    assert((h + 1) * w == h * w + w) by (nonlinear_arith);
    lemma_mag(1020, b);
    lemma_mag_monotone(1020 * b + b, B2_MARGIN as int);
    if t < 1072 {
        lemma_pow2_strictly_increases(t as nat, 1072);
    }
    lemma_powers_of_binade();
    law_sum_strictly_grows(temp_max_k, lit(B2_MARGIN));
    law_b2_above_temperatures(math, base, temp_max_k);
}

proof fn lemma_powers_of_binade()
    ensures
        BINADE * pow2(1020) == pow2(1072),
{
    lemma2_to64_rest();
    assert(pow2(52) == BINADE);
    lemma_pow2_adds(52, 1020);
}

} // verus!
