//! The error function at chosen arguments, and the weight of a censored life about 6.
use vstd::prelude::*;
use crate::host::{answer, is_faithful, Call};
use crate::normal::{erf_half, erf_of, far_survival, law_survival_is_probability,
    lemma_erf_half_within, lemma_far_falls, lemma_series, lemma_sign_kept, ln_2pi, log_phi_cdf_of,
    series_of, survival_of, SEVEN_EIGHTHS, ERF_A1, ERF_A2, ERF_A3, ERF_A4, ERF_A5, ERF_P, PI, SIX,
    SQRT_2, THREE};
use crate::normal::rise::{grain, law_survival_nearly_falls};
use crate::number::{fabs, fle, flt, fneg, lit, mag, Real};
use crate::number::arith::{fadd, fdiv, fmul, fsub};
use crate::number::bounds::{between, counts, is_range, law_bounded_difference,
    law_bounded_product, law_bounded_quotient, law_bounded_rest, law_bounded_sum, lemma_between,
    lemma_range, one_units, Range};
use crate::number::consts::{HALF, ONE, TWO, ZERO};
use crate::number::order::{law_commutes, law_difference_antitone, law_division_monotone,
    law_negation, law_product_monotone, law_products_ordered, law_reach, law_scaling_monotone,
    law_signs, law_sum_monotone, law_sums_ordered};
use crate::number::rounding::lemma_mag_monotone;
use vstd::arithmetic::power2::{lemma2_to64, lemma2_to64_rest};

verus! {

/// Bounds on the parts of the error function, from the argument to the result.
pub struct Track {
    pub p: Range,
    pub d: Range,
    pub t: Range,
    pub f: Range,
    pub g: Range,
    pub h: Range,
    pub i: Range,
    pub j: Range,
    pub k: Range,
    pub l: Range,
    pub m: Range,
    pub n: Range,
    pub v: Range,
    pub y: Range,
}

/// A literal as its own bounds.
spec fn exactly(bits: u64, m: int) -> Range {
    Range { low: bits, high: bits, l: m, h: m }
}

/// Bounds and the units in them.
spec fn range(bits: (u64, u64), m: (int, int)) -> Range {
    Range { low: bits.0, high: bits.1, l: m.0, h: m.1 }
}

/// The units in the coefficients of the series.
proof fn lemma_coefficients()
    ensures
        counts(ERF_P, 0x14_f740_a93d_7b8c_0000_0000_0000),
        counts(ERF_A1, 0x10_4f20_c6ec_5a7e_0000_0000_0000),
        counts(ERF_A2, 0x12_3531_cc3c_1469_0000_0000_0000),
        counts(ERF_A3, 0x5a_f871_56eb_855c_0000_0000_0000),
        counts(ERF_A4, 0x5d_0071_5c05_30e4_0000_0000_0000),
        counts(ERF_A5, 0x43_ee11_0956_84b4_0000_0000_0000),
        counts(ONE, one_units()),
{
    lemma2_to64();
    lemma2_to64_rest();
    lemma_range(
        exactly(ERF_P, 0x14_f740_a93d_7b8c_0000_0000_0000),
        0x1_0000_0000_0000,
        0x1_0000_0000_0000,
    );
    lemma_range(
        exactly(ERF_A1, 0x10_4f20_c6ec_5a7e_0000_0000_0000),
        0x1_0000_0000_0000,
        0x1_0000_0000_0000,
    );
    lemma_range(
        exactly(ERF_A2, 0x12_3531_cc3c_1469_0000_0000_0000),
        0x1_0000_0000_0000,
        0x1_0000_0000_0000,
    );
    lemma_range(
        exactly(ERF_A3, 0x5a_f871_56eb_855c_0000_0000_0000),
        0x4_0000_0000_0000,
        0x4_0000_0000_0000,
    );
    lemma_range(
        exactly(ERF_A4, 0x5d_0071_5c05_30e4_0000_0000_0000),
        0x4_0000_0000_0000,
        0x4_0000_0000_0000,
    );
    lemma_range(
        exactly(ERF_A5, 0x43_ee11_0956_84b4_0000_0000_0000),
        0x4_0000_0000_0000,
        0x4_0000_0000_0000,
    );
    lemma_range(exactly(ONE, one_units()), 0x4_0000_0000_0000, 0x4_0000_0000_0000);
}

spec fn is_product(a: Range, b: Range, to: Range) -> bool {
    &&& to.l * one_units() <= a.l * b.l
    &&& a.h * b.h <= to.h * one_units()
}

spec fn is_rest(k: int, a: Range, to: Range) -> bool {
    to.l <= k - a.h && k - a.l <= to.h
}

/// Whether the bounds follow from those on the argument and on the exponential.
spec fn is_track(a: Range, e: Range, b: Track) -> bool {
    &&& is_range(a) && is_range(e)
    &&& is_range(b.p) && is_range(b.d) && is_range(b.t) && is_range(b.f) && is_range(b.g)
    &&& is_range(b.h) && is_range(b.i) && is_range(b.j) && is_range(b.k) && is_range(b.l)
    &&& is_range(b.m) && is_range(b.n) && is_range(b.v) && is_range(b.y)
    &&& is_product(exactly(ERF_P, 0x14_f740_a93d_7b8c_0000_0000_0000), a, b.p)
    &&& b.d.l <= b.p.l + one_units() && b.p.h + one_units() <= b.d.h
    &&& b.t.l * b.d.h <= one_units() * one_units() <= b.t.h * b.d.l
    &&& is_product(exactly(ERF_A5, 0x43_ee11_0956_84b4_0000_0000_0000), b.t, b.f)
    &&& is_rest(0x5d_0071_5c05_30e4_0000_0000_0000, b.f, b.g)
    &&& is_product(b.g, b.t, b.h)
    &&& is_rest(0x5a_f871_56eb_855c_0000_0000_0000, b.h, b.i)
    &&& is_product(b.i, b.t, b.j)
    &&& b.k.l <= b.j.l - 0x12_3531_cc3c_1469_0000_0000_0000
    &&& b.j.h - 0x12_3531_cc3c_1469_0000_0000_0000 <= b.k.h
    &&& is_product(b.k, b.t, b.l)
    &&& b.m.l <= b.l.l + 0x10_4f20_c6ec_5a7e_0000_0000_0000
    &&& b.l.h + 0x10_4f20_c6ec_5a7e_0000_0000_0000 <= b.m.h
    &&& is_product(b.m, b.t, b.n)
    &&& is_product(b.n, e, b.v)
    &&& is_rest(one_units(), b.v, b.y)
}

/// What the error function at `a` lacks to 1.
pub open spec fn lack_of<M: Fn(Call) -> Real>(math: M, a: Real) -> Real {
    let t = fdiv(lit(ONE), fadd(lit(ONE), fmul(lit(ERF_P), a)));
    fmul(fmul(series_of(t), t), answer(math, Call::Exp(fmul(fneg(a), a))))
}

/// The error function lies between the bounds that follow.
proof fn lemma_tracked<M: Fn(Call) -> Real>(math: M, x: Real, a: Range, e: Range, b: Track)
    requires
        between(x, a),
        between(answer(math, Call::Exp(fmul(fneg(x), x))), e),
        is_track(a, e, b),
    ensures
        between(lack_of(math, x), b.v),
        between(erf_half(math, x), b.y),
{
    lemma_coefficients();
    let p = fmul(lit(ERF_P), x);
    law_bounded_product(lit(ERF_P), exactly(ERF_P, 0x14_f740_a93d_7b8c_0000_0000_0000), x, a, b.p);
    law_bounded_sum(p, b.p, ONE, one_units(), b.d);
    let d = fadd(lit(ONE), p);
    law_bounded_quotient(lit(ONE), exactly(ONE, one_units()), d, b.d, b.t);
    let t = fdiv(lit(ONE), d);
    let f = fmul(lit(ERF_A5), t);
    law_bounded_product(
        lit(ERF_A5),
        exactly(ERF_A5, 0x43_ee11_0956_84b4_0000_0000_0000),
        t,
        b.t,
        b.f,
    );
    let g = fsub(lit(ERF_A4), f);
    law_bounded_rest(ERF_A4, 0x5d_0071_5c05_30e4_0000_0000_0000, f, b.f, b.g);
    lemma_between(g, b.g);
    let c4 = fsub(f, lit(ERF_A4));
    law_signs(lit(ERF_A4), fneg(f));
    law_negation(f, f);
    law_commutes(fneg(lit(ERF_A4)), f);
    assert(!g.zero()) by {
        assert(crate::number::mag(0) == 0);
    }
    assert(c4 == fneg(g));
    let h = fmul(g, t);
    law_bounded_product(g, b.g, t, b.t, b.h);
    lemma_between(h, b.h);
    law_signs(g, t);
    let c3 = fadd(fmul(c4, t), lit(ERF_A3));
    law_commutes(fneg(h), lit(ERF_A3));
    law_bounded_rest(ERF_A3, 0x5a_f871_56eb_855c_0000_0000_0000, h, b.h, b.i);
    let j = fmul(c3, t);
    law_bounded_product(c3, b.i, t, b.t, b.j);
    let c2 = fsub(j, lit(ERF_A2));
    law_bounded_difference(j, b.j, ERF_A2, 0x12_3531_cc3c_1469_0000_0000_0000, b.k);
    let l = fmul(c2, t);
    law_bounded_product(c2, b.k, t, b.t, b.l);
    let c1 = fadd(l, lit(ERF_A1));
    law_bounded_sum(l, b.l, ERF_A1, 0x10_4f20_c6ec_5a7e_0000_0000_0000, b.m);
    let n = fmul(c1, t);
    law_bounded_product(c1, b.m, t, b.t, b.n);
    let w = answer(math, Call::Exp(fmul(fneg(x), x)));
    let v = fmul(n, w);
    law_bounded_product(n, b.n, w, e, b.v);
    law_bounded_rest(ONE, one_units(), v, b.v, b.y);
}

// ---- chosen arguments ----

/// Whether the exponentials of -1/4, -1 and -4 are right to two units in the last place.
pub open spec fn knows_exponentials<M: Fn(Call) -> Real>(math: M) -> bool {
    &&& fle(lit(0x3fe8_ebef_9eac_8209), answer(math, Call::Exp(fneg(lit(0x3fd0_0000_0000_0000)))))
    &&& fle(answer(math, Call::Exp(fneg(lit(0x3fd0_0000_0000_0000)))), lit(0x3fe8_ebef_9eac_820d))
    &&& fle(lit(0x3fd7_8b56_362c_ef36), answer(math, Call::Exp(fneg(lit(0x3ff0_0000_0000_0000)))))
    &&& fle(answer(math, Call::Exp(fneg(lit(0x3ff0_0000_0000_0000)))), lit(0x3fd7_8b56_362c_ef3a))
    &&& fle(lit(0x3f92_c155_b821_3cf2), answer(math, Call::Exp(fneg(lit(0x4010_0000_0000_0000)))))
    &&& fle(answer(math, Call::Exp(fneg(lit(0x4010_0000_0000_0000)))), lit(0x3f92_c155_b821_3cf6))
}

/// The negative square of a literal whose square is another.
proof fn lemma_square(a: u64, k: int, s: u64, m: int)
    requires
        counts(a, k),
        counts(s, m),
        m * one_units() == k * k,
    ensures
        fmul(fneg(lit(a)), lit(a)) == fneg(lit(s)),
{
    law_bounded_product(lit(a), exactly(a, k), lit(a), exactly(a, k), exactly(s, m));
    lemma_between(fmul(lit(a), lit(a)), exactly(s, m));
    lemma_between(lit(s), exactly(s, m));
    law_signs(lit(a), lit(a));
    assert(fmul(lit(a), lit(a)) == lit(s));
}

/// The error function at 1/2 lies within 1.5e-7 of 0.5204998778130.
pub proof fn law_erf_at_half<M: Fn(Call) -> Real>(math: M)
    requires
        knows_exponentials(math),
    ensures
        fle(lit(0x3fe0_a7ef_0b92_75da), erf_of(math, lit(0x3fe0_0000_0000_0000))),
        fle(erf_of(math, lit(0x3fe0_0000_0000_0000)), lit(0x3fe0_a7ef_ac9f_65ca)),
{
    lemma2_to64();
    lemma2_to64_rest();
    let x = lit(0x3fe0_0000_0000_0000);
    let a = exactly(0x3fe0_0000_0000_0000, 0x20_0000_0000_0000_0000_0000_0000);
    let e = range(
        (0x3fe8_ebef_9eac_8209, 0x3fe8_ebef_9eac_820d),
        (0x31_d7df_3d59_0412_0000_0000_0000, 0x31_d7df_3d59_041a_0000_0000_0000),
    );
    let b = Track {
        p: range(
            (0x3fc4_f740_a93d_7b51, 0x3fc4_f740_a93d_7bc7),
            (0xa_7ba0_549e_bda8_8000_0000_0000, 0xa_7ba0_549e_bde3_8000_0000_0000),
        ),
        d: range(
            (0x3ff2_9ee8_1527_af36, 0x3ff2_9ee8_1527_afad),
            (0x4a_7ba0_549e_bcd8_0000_0000_0000, 0x4a_7ba0_549e_beb4_0000_0000_0000),
        ),
        t: range(
            (0x3feb_7f09_7c62_d8d4, 0x3feb_7f09_7c62_da1e),
            (0x36_fe12_f8c5_b1a8_0000_0000_0000, 0x36_fe12_f8c5_b43c_0000_0000_0000),
        ),
        f: range(
            (0x3fed_2f45_ab3f_985a, 0x3fed_2f45_ab3f_9a5d),
            (0x3a_5e8b_567f_30b4_0000_0000_0000, 0x3a_5e8b_567f_34ba_0000_0000_0000),
        ),
        g: range(
            (0x3fe1_50f3_02c2_fde4, 0x3fe1_50f3_02c3_0049),
            (0x22_a1e6_0585_fbc8_0000_0000_0000, 0x22_a1e6_0586_0092_0000_0000_0000),
        ),
        h: range(
            (0x3fdd_c216_e1b5_ff3a, 0x3fdd_c216_e1b6_0564),
            (0x1d_c216_e1b5_ff3a_0000_0000_0000, 0x1d_c216_e1b6_0564_0000_0000_0000),
        ),
        i: range(
            (0x3fee_9b2d_3a9a_bfa6, 0x3fee_9b2d_3a9a_c367),
            (0x3d_365a_7535_7f4c_0000_0000_0000, 0x3d_365a_7535_86ce_0000_0000_0000),
        ),
        j: range(
            (0x3fea_4c6f_178f_b9ee, 0x3fea_4c6f_178f_bef7),
            (0x34_98de_2f1f_73dc_0000_0000_0000, 0x34_98de_2f1f_7dee_0000_0000_0000),
        ),
        k: range(
            (0x3fe1_31d6_3171_af89, 0x3fe1_31d6_3171_b4f3),
            (0x22_63ac_62e3_5f12_0000_0000_0000, 0x22_63ac_62e3_69e6_0000_0000_0000),
        ),
        l: range(
            (0x3fdd_8c9f_394d_4059, 0x3fdd_8c9f_394d_4bb0),
            (0x1d_8c9f_394d_4059_0000_0000_0000, 0x1d_8c9f_394d_4bb0_0000_0000_0000),
        ),
        m: range(
            (0x3fe6_ede0_001c_cd2b, 0x3fe6_ede0_001c_d358),
            (0x2d_dbc0_0039_9a56_0000_0000_0000, 0x2d_dbc0_0039_a6b0_0000_0000_0000),
        ),
        n: range(
            (0x3fe3_b3bb_dd20_5717, 0x3fe3_b3bb_dd20_5dc1),
            (0x27_6777_ba40_ae2e_0000_0000_0000, 0x27_6777_ba40_bb82_0000_0000_0000),
        ),
        v: range(
            (0x3fde_b020_b319_cfc9, 0x3fde_b020_b319_dadc),
            (0x1e_b020_b319_cfc9_0000_0000_0000, 0x1e_b020_b319_dadc_0000_0000_0000),
        ),
        y: range(
            (0x3fe0_a7ef_a673_1290, 0x3fe0_a7ef_a673_181e),
            (0x21_4fdf_4ce6_2520_0000_0000_0000, 0x21_4fdf_4ce6_303c_0000_0000_0000),
        ),
    };
    lemma_range(a, 0x2_0000_0000_0000, 0x2_0000_0000_0000);
    lemma_range(e, 0x2_0000_0000_0000, 0x2_0000_0000_0000);
    lemma_range(b.p, 0x8000_0000_0000, 0x8000_0000_0000);
    lemma_range(b.d, 0x4_0000_0000_0000, 0x4_0000_0000_0000);
    lemma_range(b.t, 0x2_0000_0000_0000, 0x2_0000_0000_0000);
    lemma_range(b.f, 0x2_0000_0000_0000, 0x2_0000_0000_0000);
    lemma_range(b.g, 0x2_0000_0000_0000, 0x2_0000_0000_0000);
    lemma_range(b.h, 0x1_0000_0000_0000, 0x1_0000_0000_0000);
    lemma_range(b.i, 0x2_0000_0000_0000, 0x2_0000_0000_0000);
    lemma_range(b.j, 0x2_0000_0000_0000, 0x2_0000_0000_0000);
    lemma_range(b.k, 0x2_0000_0000_0000, 0x2_0000_0000_0000);
    lemma_range(b.l, 0x1_0000_0000_0000, 0x1_0000_0000_0000);
    lemma_range(b.m, 0x2_0000_0000_0000, 0x2_0000_0000_0000);
    lemma_range(b.n, 0x2_0000_0000_0000, 0x2_0000_0000_0000);
    lemma_range(b.v, 0x1_0000_0000_0000, 0x1_0000_0000_0000);
    lemma_range(b.y, 0x2_0000_0000_0000, 0x2_0000_0000_0000);
    lemma_range(
        exactly(0x3fd0_0000_0000_0000, 0x10_0000_0000_0000_0000_0000_0000),
        0x1_0000_0000_0000,
        0x1_0000_0000_0000,
    );
    lemma_square(
        0x3fe0_0000_0000_0000,
        0x20_0000_0000_0000_0000_0000_0000,
        0x3fd0_0000_0000_0000,
        0x10_0000_0000_0000_0000_0000_0000,
    );
    assert(is_track(a, e, b));
    lemma_tracked(math, x, a, e, b);
    lemma_between(erf_half(math, x), b.y);
    lemma_sign_kept(erf_half(math, x));
    assert(fabs(x) == x);
}

/// The error function at 1 lies within 1.5e-7 of 0.8427007929497.
pub proof fn law_erf_at_one<M: Fn(Call) -> Real>(math: M)
    requires
        knows_exponentials(math),
    ensures
        fle(lit(0x3fea_f767_56ba_9093), erf_of(math, lit(0x3ff0_0000_0000_0000))),
        fle(erf_of(math, lit(0x3ff0_0000_0000_0000)), lit(0x3fea_f767_f7c7_8083)),
{
    lemma2_to64();
    lemma2_to64_rest();
    let x = lit(0x3ff0_0000_0000_0000);
    let a = exactly(0x3ff0_0000_0000_0000, 0x40_0000_0000_0000_0000_0000_0000);
    let e = range(
        (0x3fd7_8b56_362c_ef36, 0x3fd7_8b56_362c_ef3a),
        (0x17_8b56_362c_ef36_0000_0000_0000, 0x17_8b56_362c_ef3a_0000_0000_0000),
    );
    let b = Track {
        p: range(
            (0x3fd4_f740_a93d_7b51, 0x3fd4_f740_a93d_7bc7),
            (0x14_f740_a93d_7b51_0000_0000_0000, 0x14_f740_a93d_7bc7_0000_0000_0000),
        ),
        d: range(
            (0x3ff5_3dd0_2a4f_5e98, 0x3ff5_3dd0_2a4f_5f2e),
            (0x54_f740_a93d_7a60_0000_0000_0000, 0x54_f740_a93d_7cb8_0000_0000_0000),
        ),
        t: range(
            (0x3fe8_1a93_1ce4_9b35, 0x3fe8_1a93_1ce4_9c66),
            (0x30_3526_39c9_366a_0000_0000_0000, 0x30_3526_39c9_38cc_0000_0000_0000),
        ),
        f: range(
            (0x3fe9_957b_3fe6_2a62, 0x3fe9_957b_3fe6_2c35),
            (0x33_2af6_7fcc_54c4_0000_0000_0000, 0x33_2af6_7fcc_586a_0000_0000_0000),
        ),
        g: range(
            (0x3fe4_eabd_6e1c_6c02, 0x3fe4_eabd_6e1c_6e4b),
            (0x29_d57a_dc38_d804_0000_0000_0000, 0x29_d57a_dc38_dc96_0000_0000_0000),
        ),
        h: range(
            (0x3fdf_82d9_eb6f_9af2, 0x3fdf_82d9_eb6f_a0a4),
            (0x1f_82d9_eb6f_9af2_0000_0000_0000, 0x1f_82d9_eb6f_a0a4_0000_0000_0000),
        ),
        i: range(
            (0x3fed_bacb_b5bd_f208, 0x3fed_bacb_b5bd_f589),
            (0x3b_7597_6b7b_e410_0000_0000_0000, 0x3b_7597_6b7b_eb12_0000_0000_0000),
        ),
        j: range(
            (0x3fe6_64c9_3ac1_bfd9, 0x3fe6_64c9_3ac1_c416),
            (0x2c_c992_7583_7fb2_0000_0000_0000, 0x2c_c992_7583_882c_0000_0000_0000),
        ),
        k: range(
            (0x3fda_9460_a947_6afe, 0x3fda_9460_a947_740e),
            (0x1a_9460_a947_6afe_0000_0000_0000, 0x1a_9460_a947_740e_0000_0000_0000),
        ),
        l: range(
            (0x3fd4_055b_3f1a_da5d, 0x3fd4_055b_3f1a_e29e),
            (0x14_055b_3f1a_da5d_0000_0000_0000, 0x14_055b_3f1a_e29e_0000_0000_0000),
        ),
        m: range(
            (0x3fe2_2a3e_0303_9a3a, 0x3fe2_2a3e_0303_9ec1),
            (0x24_547c_0607_3474_0000_0000_0000, 0x24_547c_0607_3d82_0000_0000_0000),
        ),
        n: range(
            (0x3fdb_5d88_ae31_7f44, 0x3fdb_5d88_ae31_880a),
            (0x1b_5d88_ae31_7f44_0000_0000_0000, 0x1b_5d88_ae31_880a_0000_0000_0000),
        ),
        v: range(
            (0x3fc4_2262_409b_d239, 0x3fc4_2262_409b_d922),
            (0xa_1131_204d_e91c_8000_0000_0000, 0xa_1131_204d_ec91_0000_0000_0000),
        ),
        y: range(
            (0x3fea_f767_6fd9_09b6, 0x3fea_f767_6fd9_0b74),
            (0x35_eece_dfb2_136c_0000_0000_0000, 0x35_eece_dfb2_16e8_0000_0000_0000),
        ),
    };
    lemma_range(a, 0x4_0000_0000_0000, 0x4_0000_0000_0000);
    lemma_range(e, 0x1_0000_0000_0000, 0x1_0000_0000_0000);
    lemma_range(b.p, 0x1_0000_0000_0000, 0x1_0000_0000_0000);
    lemma_range(b.d, 0x4_0000_0000_0000, 0x4_0000_0000_0000);
    lemma_range(b.t, 0x2_0000_0000_0000, 0x2_0000_0000_0000);
    lemma_range(b.f, 0x2_0000_0000_0000, 0x2_0000_0000_0000);
    lemma_range(b.g, 0x2_0000_0000_0000, 0x2_0000_0000_0000);
    lemma_range(b.h, 0x1_0000_0000_0000, 0x1_0000_0000_0000);
    lemma_range(b.i, 0x2_0000_0000_0000, 0x2_0000_0000_0000);
    lemma_range(b.j, 0x2_0000_0000_0000, 0x2_0000_0000_0000);
    lemma_range(b.k, 0x1_0000_0000_0000, 0x1_0000_0000_0000);
    lemma_range(b.l, 0x1_0000_0000_0000, 0x1_0000_0000_0000);
    lemma_range(b.m, 0x2_0000_0000_0000, 0x2_0000_0000_0000);
    lemma_range(b.n, 0x1_0000_0000_0000, 0x1_0000_0000_0000);
    lemma_range(b.v, 0x8000_0000_0000, 0x8000_0000_0000);
    lemma_range(b.y, 0x2_0000_0000_0000, 0x2_0000_0000_0000);
    lemma_range(
        exactly(0x3ff0_0000_0000_0000, 0x40_0000_0000_0000_0000_0000_0000),
        0x4_0000_0000_0000,
        0x4_0000_0000_0000,
    );
    lemma_square(
        0x3ff0_0000_0000_0000,
        0x40_0000_0000_0000_0000_0000_0000,
        0x3ff0_0000_0000_0000,
        0x40_0000_0000_0000_0000_0000_0000,
    );
    assert(is_track(a, e, b));
    lemma_tracked(math, x, a, e, b);
    lemma_between(erf_half(math, x), b.y);
    lemma_sign_kept(erf_half(math, x));
    assert(fabs(x) == x);
}

/// The error function at 2 lies within 1.5e-7 of 0.9953222650190.
pub proof fn law_erf_at_two<M: Fn(Call) -> Real>(math: M)
    requires
        knows_exponentials(math),
    ensures
        fle(lit(0x3fef_d9ad_c3a1_1deb), erf_of(math, lit(0x4000_0000_0000_0000))),
        fle(erf_of(math, lit(0x4000_0000_0000_0000)), lit(0x3fef_d9ae_64ae_0ddb)),
{
    lemma2_to64();
    lemma2_to64_rest();
    let x = lit(0x4000_0000_0000_0000);
    let a = exactly(0x4000_0000_0000_0000, 0x80_0000_0000_0000_0000_0000_0000);
    let e = range(
        (0x3f92_c155_b821_3cf2, 0x3f92_c155_b821_3cf6),
        (0x1_2c15_5b82_13cf_2000_0000_0000, 0x1_2c15_5b82_13cf_6000_0000_0000),
    );
    let b = Track {
        p: range(
            (0x3fe4_f740_a93d_7b51, 0x3fe4_f740_a93d_7bc7),
            (0x29_ee81_527a_f6a2_0000_0000_0000, 0x29_ee81_527a_f78e_0000_0000_0000),
        ),
        d: range(
            (0x3ffa_7ba0_549e_bd5e, 0x3ffa_7ba0_549e_be2e),
            (0x69_ee81_527a_f578_0000_0000_0000, 0x69_ee81_527a_f8b8_0000_0000_0000),
        ),
        t: range(
            (0x3fe3_554d_d791_ae45, 0x3fe3_554d_d791_af4a),
            (0x26_aa9b_af23_5c8a_0000_0000_0000, 0x26_aa9b_af23_5e94_0000_0000_0000),
        ),
        f: range(
            (0x3fe4_8537_dca0_f6e2, 0x3fe4_8537_dca0_f86b),
            (0x29_0a6f_b941_edc4_0000_0000_0000, 0x29_0a6f_b941_f0d6_0000_0000_0000),
        ),
        g: range(
            (0x3fe9_fb00_d161_9fbe, 0x3fe9_fb00_d161_a1d9),
            (0x33_f601_a2c3_3f7c_0000_0000_0000, 0x33_f601_a2c3_43b2_0000_0000_0000),
        ),
        h: range(
            (0x3fdf_6494_d2f9_9c4e, 0x3fdf_6494_d2f9_a132),
            (0x1f_6494_d2f9_9c4e_0000_0000_0000, 0x1f_6494_d2f9_a132_0000_0000_0000),
        ),
        i: range(
            (0x3fed_c9ee_41f8_f1c1, 0x3fed_c9ee_41f8_f4db),
            (0x3b_93dc_83f1_e382_0000_0000_0000, 0x3b_93dc_83f1_e9b6_0000_0000_0000),
        ),
        j: range(
            (0x3fe1_ff4e_4e9c_b15e, 0x3fe1_ff4e_4e9c_b496),
            (0x23_fe9c_9d39_62bc_0000_0000_0000, 0x23_fe9c_9d39_692c_0000_0000_0000),
        ),
        k: range(
            (0x3fd1_c96a_d0fd_4e21, 0x3fd1_c96a_d0fd_54f5),
            (0x11_c96a_d0fd_4e21_0000_0000_0000, 0x11_c96a_d0fd_54f5_0000_0000_0000),
        ),
        l: range(
            (0x3fc5_7e03_6899_9a68, 0x3fc5_7e03_6899_a444),
            (0xa_bf01_b44c_cd34_0000_0000_0000, 0xa_bf01_b44c_d222_0000_0000_0000),
        ),
        m: range(
            (0x3fdb_0e22_7b39_2766, 0x3fdb_0e22_7b39_2cec),
            (0x1b_0e22_7b39_2766_0000_0000_0000, 0x1b_0e22_7b39_2cec_0000_0000_0000),
        ),
        n: range(
            (0x3fd0_5883_d506_5a98, 0x3fd0_5883_d506_5f27),
            (0x10_5883_d506_5a98_0000_0000_0000, 0x10_5883_d506_5f27_0000_0000_0000),
        ),
        v: range(
            (0x3f73_2917_9838_fef0, 0x3f73_2917_9839_04b8),
            (0x4ca4_5e60_e3fb_c000_0000_0000, 0x4ca4_5e60_e412_e000_0000_0000),
        ),
        y: range(
            (0x3fef_d9ad_d0cf_8df5, 0x3fef_d9ad_d0cf_8e04),
            (0x3f_b35b_a19f_1bea_0000_0000_0000, 0x3f_b35b_a19f_1c08_0000_0000_0000),
        ),
    };
    lemma_range(a, 0x8_0000_0000_0000, 0x8_0000_0000_0000);
    lemma_range(e, 0x1000_0000_0000, 0x1000_0000_0000);
    lemma_range(b.p, 0x2_0000_0000_0000, 0x2_0000_0000_0000);
    lemma_range(b.d, 0x4_0000_0000_0000, 0x4_0000_0000_0000);
    lemma_range(b.t, 0x2_0000_0000_0000, 0x2_0000_0000_0000);
    lemma_range(b.f, 0x2_0000_0000_0000, 0x2_0000_0000_0000);
    lemma_range(b.g, 0x2_0000_0000_0000, 0x2_0000_0000_0000);
    lemma_range(b.h, 0x1_0000_0000_0000, 0x1_0000_0000_0000);
    lemma_range(b.i, 0x2_0000_0000_0000, 0x2_0000_0000_0000);
    lemma_range(b.j, 0x2_0000_0000_0000, 0x2_0000_0000_0000);
    lemma_range(b.k, 0x1_0000_0000_0000, 0x1_0000_0000_0000);
    lemma_range(b.l, 0x8000_0000_0000, 0x8000_0000_0000);
    lemma_range(b.m, 0x1_0000_0000_0000, 0x1_0000_0000_0000);
    lemma_range(b.n, 0x1_0000_0000_0000, 0x1_0000_0000_0000);
    lemma_range(b.v, 0x400_0000_0000, 0x400_0000_0000);
    lemma_range(b.y, 0x2_0000_0000_0000, 0x2_0000_0000_0000);
    lemma_range(
        exactly(0x4010_0000_0000_0000, 0x100_0000_0000_0000_0000_0000_0000),
        0x10_0000_0000_0000,
        0x10_0000_0000_0000,
    );
    lemma_square(
        0x4000_0000_0000_0000,
        0x80_0000_0000_0000_0000_0000_0000,
        0x4010_0000_0000_0000,
        0x100_0000_0000_0000_0000_0000_0000,
    );
    assert(is_track(a, e, b));
    lemma_tracked(math, x, a, e, b);
    lemma_between(erf_half(math, x), b.y);
    lemma_sign_kept(erf_half(math, x));
    assert(fabs(x) == x);
}

// ---- about 6 ----

/// 9
pub const NINE: u64 = 0x4022_0000_0000_0000;

/// 1.98e-9, at least which the error function lacks to 1 before 6.
pub const LACK: u64 = 0x3e21_0210_e863_e3cc;

/// 9.854e-10, at least which is the probability to survive before 6.
pub const RARE: u64 = 0x3e10_edd5_c4a8_eefe;

/// 20.7381
pub const RARE_LOG: u64 = 0x4034_bcf4_1f21_2d77;

/// 1.7917
pub const LOG_SIX: u64 = 0x3ffc_aacd_9e83_e426;

/// 1.8378
pub const LOG_TWO_PI: u64 = 0x3ffd_67a0_f909_6bba;

/// Twice pi.
pub const TWO_PI: u64 = 0x4019_21fb_5444_2d18;

/// 6 over the square root of 2, or a little more.
pub const SIX_IN_SPREADS: u64 = 0x4010_f876_ccdf_6cdb;

/// What is asked of the exponential and the logarithm that the weight of a censored life
/// should not rise where its far form takes over: that they are not too low by more than one
/// part in ten thousand.
pub open spec fn is_accurate<M: Fn(Call) -> Real>(math: M) -> bool {
    &&& fle(lit(0x3f20_2cf1_15c4_c93a), answer(math, Call::Exp(fneg(lit(NINE)))))
    &&& fle(lit(0x3e57_7074_ea03_cdf3), answer(math, Call::Exp(fneg(lit(0x4031_a3d7_1b04_6845)))))
    &&& fle(lit(0x3e50_b935_a72b_5bca), answer(math, Call::Exp(fneg(lit(0x4031_fa44_0f23_8972)))))
    &&& fle(lit(0x3e50_5a60_67b1_f5a3), answer(math, Call::Exp(fneg(lit(0x4032_0000_10c6_f7a1)))))
    &&& fle(lit(LOG_SIX), answer(math, Call::Ln(lit(SIX))))
    &&& fle(lit(LOG_TWO_PI), answer(math, Call::Ln(lit(TWO_PI))))
    &&& fle(fneg(lit(RARE_LOG)), answer(math, Call::Ln(lit(RARE))))
}

/// The exponent of the error function at most as far below zero as the square of a bound.
proof fn lemma_exponent(a: Real, high: u64, k: int, s: u64, m: int)
    requires
        fle(lit(ZERO), a),
        fle(a, lit(high)),
        counts(high, k),
        counts(s, m),
        k * k <= m * one_units(),
        one_units() <= k,
    ensures
        fle(fneg(lit(s)), fmul(fneg(a), a)),
        fle(fmul(fneg(a), a), lit(ZERO)),
{
    lemma_coefficients();
    let h = lit(high);
    let to = Range { low: ONE, high: s, l: one_units(), h: m };
    assert(one_units() * one_units() <= k * k) by (nonlinear_arith)
        requires
            one_units() <= k,
            0 <= one_units(),
    ;
    law_bounded_product(h, exactly(high, k), h, exactly(high, k), to);
    lemma_between(h, exactly(high, k));
    law_products_ordered(a, h, a, h);
    law_signs(a, a);
    law_negation(fmul(a, a), lit(s));
    law_negation(lit(ZERO), fmul(a, a));
}

/// Up to 3 the error function lacks much more than that.
proof fn lemma_lack_near<M: Fn(Call) -> Real>(math: M, a: Real)
    requires
        is_faithful(math),
        is_accurate(math),
        fle(lit(ZERO), a),
        fle(a, lit(THREE)),
    ensures
        fle(lit(LACK), lack_of(math, a)),
{
    lemma2_to64();
    lemma2_to64_rest();
    lemma_coefficients();
    let three = exactly(0x4008_0000_0000_0000, 0xc0_0000_0000_0000_0000_0000_0000);
    lemma_range(
        exactly(0x4008_0000_0000_0000, 0xc0_0000_0000_0000_0000_0000_0000),
        0x8_0000_0000_0000,
        0x8_0000_0000_0000,
    );
    lemma_range(
        exactly(0x4022_0000_0000_0000, 0x240_0000_0000_0000_0000_0000_0000),
        0x20_0000_0000_0000,
        0x20_0000_0000_0000,
    );
    lemma_exponent(
        a,
        THREE,
        0xc0_0000_0000_0000_0000_0000_0000,
        NINE,
        0x240_0000_0000_0000_0000_0000_0000,
    );
    let product = fmul(lit(ERF_P), lit(THREE));
    let in_product = range(
        (0x3fef_72e0_fd55_270f, 0x3fef_72e0_fe63_4b96),
        (0x3e_e5c1_faaa_4e1e_0000_0000_0000, 0x3e_e5c1_fcc6_972c_0000_0000_0000),
    );
    lemma_range(in_product, 0x2_0000_0000_0000, 0x2_0000_0000_0000);
    law_bounded_product(
        lit(ERF_P),
        exactly(ERF_P, 0x14_f740_a93d_7b8c_0000_0000_0000),
        lit(THREE),
        three,
        in_product,
    );
    let in_sum = range(
        (0x3fff_ae14_7ae1_47ae, 0x3fff_d70a_3d70_a3d7),
        (0x7e_b851_eb85_1eb8_0000_0000_0000, 0x7f_5c28_f5c2_8f5c_0000_0000_0000),
    );
    lemma_range(in_sum, 0x4_0000_0000_0000, 0x4_0000_0000_0000);
    law_bounded_sum(product, in_product, ONE, one_units(), in_sum);
    let p = fmul(lit(ERF_P), a);
    law_products_ordered(lit(ERF_P), lit(ERF_P), a, lit(THREE));
    law_reach(lit(ONE), p);
    law_sum_monotone(p, product, lit(ONE));
    law_commutes(p, lit(ONE));
    law_commutes(product, lit(ONE));
    let d = fadd(lit(ONE), p);
    let in_d = range(
        (0x3ff0_0000_0000_0000, 0x3fff_d70a_3d70_a3d7),
        (0x40_0000_0000_0000_0000_0000_0000, 0x7f_5c28_f5c2_8f5c_0000_0000_0000),
    );
    lemma_range(in_d, 0x4_0000_0000_0000, 0x4_0000_0000_0000);
    let in_t = range(
        (0x3fe0_0000_0000_0000, 0x3ff0_0000_0000_0000),
        (0x20_0000_0000_0000_0000_0000_0000, 0x40_0000_0000_0000_0000_0000_0000),
    );
    lemma_range(in_t, 0x2_0000_0000_0000, 0x4_0000_0000_0000);
    assert(between(d, in_d));
    law_bounded_quotient(lit(ONE), exactly(ONE, one_units()), d, in_d, in_t);
    let t = fdiv(lit(ONE), d);
    lemma_series(t);
    let c = series_of(t);
    let in_c = range(
        (0x3fc0_0000_0000_0000, 0x3ffe_0000_0000_0000),
        (0x8_0000_0000_0000_0000_0000_0000, 0x78_0000_0000_0000_0000_0000_0000),
    );
    lemma_range(in_c, 0x8000_0000_0000, 0x4_0000_0000_0000);
    let in_n = range(
        (0x3fb0_0000_0000_0000, 0x3ffe_0000_0000_0000),
        (0x4_0000_0000_0000_0000_0000_0000, 0x78_0000_0000_0000_0000_0000_0000),
    );
    lemma_range(in_n, 0x4000_0000_0000, 0x4_0000_0000_0000);
    law_bounded_product(c, in_c, t, in_t, in_n);
    let w = answer(math, Call::Exp(fmul(fneg(a), a)));
    let in_e = range(
        (0x3f20_2cf1_15c4_c93a, 0x3ff0_0000_0000_0000),
        (0x205_9e22_b899_2740_0000_0000, 0x40_0000_0000_0000_0000_0000_0000),
    );
    lemma_range(in_e, 0x20_0000_0000, 0x4_0000_0000_0000);
    let in_v = range(
        (0x3edd_5c31_593e_5fb7, 0x3ffe_0000_0000_0000),
        (0x1d_5c31_593e_5fb7_0000_0000, 0x78_0000_0000_0000_0000_0000_0000),
    );
    lemma_range(in_v, 0x1_0000_0000, 0x4_0000_0000_0000);
    assert(between(w, in_e));
    law_bounded_product(fmul(c, t), in_n, w, in_e, in_v);
}

/// From 3 to 4.2 the error function lacks at least that.
proof fn lemma_lack_far<M: Fn(Call) -> Real>(math: M, a: Real)
    requires
        is_faithful(math),
        is_accurate(math),
        fle(lit(0x4008_0000_0000_0000), a),
        fle(a, lit(0x4010_cccc_cccc_cccd)),
    ensures
        fle(lit(LACK), lack_of(math, a)),
{
    lemma2_to64();
    lemma2_to64_rest();
    let in_a = range(
        (0x4008_0000_0000_0000, 0x4010_cccc_cccc_cccd),
        (0xc0_0000_0000_0000_0000_0000_0000, 0x10c_cccc_cccc_ccd0_0000_0000_0000),
    );
    lemma_range(in_a, 0x8_0000_0000_0000, 0x10_0000_0000_0000);
    let in_e = range(
        (0x3e57_7074_ea03_cdf3, 0x3ff0_0000_0000_0000),
        (0x1770_74ea_03cd_f300_0000, 0x40_0000_0000_0000_0000_0000_0000),
    );
    lemma_range(in_e, 0x100_0000, 0x4_0000_0000_0000);
    lemma_range(
        exactly(0x4031_a3d7_1b04_6845, 0x468_f5c6_c11a_1140_0000_0000_0000),
        0x40_0000_0000_0000,
        0x40_0000_0000_0000,
    );
    lemma_exponent(
        a,
        0x4010_cccc_cccc_cccd,
        0x10c_cccc_cccc_ccd0_0000_0000_0000,
        0x4031_a3d7_1b04_6845,
        0x468_f5c6_c11a_1140_0000_0000_0000,
    );
    let b = Track {
        p: range(
            (0x3fef_72e0_fd55_270f, 0x3ff6_039d_7edf_1b4f),
            (0x3e_e5c1_faaa_4e1e_0000_0000_0000, 0x58_0e75_fb7c_6d3c_0000_0000_0000),
        ),
        d: range(
            (0x3fff_b970_7e22_5236, 0x4003_01ce_bfc1_3024),
            (0x7e_e5c1_f889_48d8_0000_0000_0000, 0x98_0e75_fe09_8120_0000_0000_0000),
        ),
        t: range(
            (0x3fda_eff6_ab85_2e1b, 0x3fe0_2396_3968_e12c),
            (0x1a_eff6_ab85_2e1b_0000_0000_0000, 0x20_472c_72d1_c258_0000_0000_0000),
        ),
        f: range(
            (0x3fdc_9769_c40e_2571, 0x3fe1_2149_e6d7_9614),
            (0x1c_9769_c40e_2571_0000_0000_0000, 0x22_4293_cdaf_2c28_0000_0000_0000),
        ),
        g: range(
            (0x3fed_5eee_c6ac_dccc, 0x3ff0_1a41_e642_ebd3),
            (0x3a_bddd_8d59_b998_0000_0000_0000, 0x40_6907_990b_af4c_0000_0000_0000),
        ),
        h: range(
            (0x3fd8_b961_6f97_3e23, 0x3fe0_3e12_86a1_47c1),
            (0x18_b961_6f97_3e23_0000_0000_0000, 0x20_7c25_0d42_8f82_0000_0000_0000),
        ),
        i: range(
            (0x3fed_3e26_2456_e229, 0x3ff0_8fc3_fa1c_3376),
            (0x3a_7c4c_48ad_c452_0000_0000_0000, 0x42_3f0f_e870_cdd8_0000_0000_0000),
        ),
        j: range(
            (0x3fd8_9dc8_947f_4e55, 0x3fe0_b499_f651_1384),
            (0x18_9dc8_947f_4e55_0000_0000_0000, 0x21_6933_eca2_2708_0000_0000_0000),
        ),
        k: range(
            (0x3fb9_a25b_209e_ce95, 0x3fce_6804_414e_bd57),
            (0x6_6896_c827_b3a5_4000_0000_0000, 0xf_3402_20a7_5eab_8000_0000_0000),
        ),
        l: range(
            (0x3fa5_9424_3c42_cd63, 0x3fbe_aba5_4763_1796),
            (0x2_b284_8788_59ac_6000_0000_0000, 0x7_aae9_51d8_c5e5_8000_0000_0000),
        ),
        m: range(
            (0x3fd3_01a5_4e23_1260, 0x3fd7_fa0a_192c_1b11),
            (0x13_01a5_4e23_1260_0000_0000_0000, 0x17_fa0a_192c_1b11_0000_0000_0000),
        ),
        n: range(
            (0x3fbf_ffba_38bc_170c, 0x3fc8_2f5e_2dd1_a5ec),
            (0x7_ffee_8e2f_05c3_0000_0000_0000, 0xc_17af_16e8_d2f6_0000_0000_0000),
        ),
        v: range(
            (0x3e27_7041_cd2d_f54c, 0x3fc8_2f5e_2e39_85a5),
            (0x2ee_0839_a5be_a980_0000, 0xc_17af_171c_c2d2_8000_0000_0000),
        ),
        y: range(
            (0x3fe9_f428_7471_9e95, 0x3fef_ffff_fe88_fbe5),
            (0x33_e850_e8e3_3d2a_0000_0000_0000, 0x3f_ffff_fd11_f7ca_0000_0000_0000),
        ),
    };
    lemma_range(b.p, 0x2_0000_0000_0000, 0x4_0000_0000_0000);
    lemma_range(b.d, 0x4_0000_0000_0000, 0x8_0000_0000_0000);
    lemma_range(b.t, 0x1_0000_0000_0000, 0x2_0000_0000_0000);
    lemma_range(b.f, 0x1_0000_0000_0000, 0x2_0000_0000_0000);
    lemma_range(b.g, 0x2_0000_0000_0000, 0x4_0000_0000_0000);
    lemma_range(b.h, 0x1_0000_0000_0000, 0x2_0000_0000_0000);
    lemma_range(b.i, 0x2_0000_0000_0000, 0x4_0000_0000_0000);
    lemma_range(b.j, 0x1_0000_0000_0000, 0x2_0000_0000_0000);
    lemma_range(b.k, 0x4000_0000_0000, 0x8000_0000_0000);
    lemma_range(b.l, 0x2000_0000_0000, 0x4000_0000_0000);
    lemma_range(b.m, 0x1_0000_0000_0000, 0x1_0000_0000_0000);
    lemma_range(b.n, 0x4000_0000_0000, 0x8000_0000_0000);
    lemma_range(b.v, 0x20_0000, 0x8000_0000_0000);
    lemma_range(b.y, 0x2_0000_0000_0000, 0x2_0000_0000_0000);
    assert(is_track(in_a, in_e, b));
    assert(between(answer(math, Call::Exp(fmul(fneg(a), a))), in_e));
    lemma_tracked(math, a, in_a, in_e, b);
}

/// From 4.2 to 4.24 the error function lacks at least that.
proof fn lemma_lack_farther<M: Fn(Call) -> Real>(math: M, a: Real)
    requires
        is_faithful(math),
        is_accurate(math),
        fle(lit(0x4010_cccc_cccc_cccd), a),
        fle(a, lit(0x4010_f5c2_8f5c_28f6)),
    ensures
        fle(lit(LACK), lack_of(math, a)),
{
    lemma2_to64();
    lemma2_to64_rest();
    let in_a = range(
        (0x4010_cccc_cccc_cccd, 0x4010_f5c2_8f5c_28f6),
        (0x10c_cccc_cccc_ccd0_0000_0000_0000, 0x10f_5c28_f5c2_8f60_0000_0000_0000),
    );
    lemma_range(in_a, 0x10_0000_0000_0000, 0x10_0000_0000_0000);
    let in_e = range(
        (0x3e50_b935_a72b_5bca, 0x3ff0_0000_0000_0000),
        (0x10b9_35a7_2b5b_ca00_0000, 0x40_0000_0000_0000_0000_0000_0000),
    );
    lemma_range(in_e, 0x100_0000, 0x4_0000_0000_0000);
    lemma_range(
        exactly(0x4031_fa44_0f23_8972, 0x47e_9103_c8e2_5c80_0000_0000_0000),
        0x40_0000_0000_0000,
        0x40_0000_0000_0000,
    );
    lemma_exponent(
        a,
        0x4010_f5c2_8f5c_28f6,
        0x10f_5c28_f5c2_8f60_0000_0000_0000,
        0x4031_fa44_0f23_8972,
        0x47e_9103_c8e2_5c80_0000_0000_0000,
    );
    let b = Track {
        p: range(
            (0x3ff6_039d_7e22_01be, 0x3ff6_3949_a987_05a0),
            (0x58_0e75_f888_06f8_0000_0000_0000, 0x58_e526_a61c_1680_0000_0000_0000),
        ),
        d: range(
            (0x4003_01ce_bebf_5e63, 0x4003_1ca4_d515_988f),
            (0x98_0e75_f5fa_f318_0000_0000_0000, 0x98_e526_a8ac_c478_0000_0000_0000),
        ),
        t: range(
            (0x3fda_ca23_97f9_cbea, 0x3fda_eff6_add9_f594),
            (0x1a_ca23_97f9_cbea_0000_0000_0000, 0x1a_eff6_add9_f594_0000_0000_0000),
        ),
        f: range(
            (0x3fdc_6f44_1896_a2bd, 0x3fdc_9769_c77d_2b71),
            (0x1c_6f44_1896_a2bd_0000_0000_0000, 0x1c_9769_c77d_2b71_0000_0000_0000),
        ),
        g: range(
            (0x3ff0_1a41_e4dc_d867, 0x3ff0_244b_5120_f79b),
            (0x40_6907_9373_619c_0000_0000_0000, 0x40_912d_4483_de6c_0000_0000_0000),
        ),
        h: range(
            (0x3fda_f61a_65bf_cfe2, 0x3fdb_2d11_66c0_78e6),
            (0x1a_f61a_65bf_cfe2_0000_0000_0000, 0x1b_2d11_66c0_78e6_0000_0000_0000),
        ),
        i: range(
            (0x3fef_e5af_f78c_86df, 0x3ff0_0095_bc8f_a811),
            (0x3f_cb5f_ef19_0dbe_0000_0000_0000, 0x40_0256_f23e_a044_0000_0000_0000),
        ),
        j: range(
            (0x3fda_b41c_5a2f_6f67, 0x3fda_f0f2_c66c_4cd8),
            (0x1a_b41c_5a2f_6f67_0000_0000_0000, 0x1a_f0f2_c66c_4cd8_0000_0000_0000),
        ),
        k: range(
            (0x3fc0_fdd5_1b9d_bb99, 0x3fc1_7781_f4ab_75d9),
            (0x8_7eea_8dce_ddcc_8000_0000_0000, 0x8_bbc0_fa55_baec_8000_0000_0000),
        ),
        l: range(
            (0x3fac_7324_bb89_c5cb, 0x3fad_6829_9e83_ddc3),
            (0x3_8e64_9771_38b9_6000_0000_0000, 0x3_ad05_33d0_7bb8_6000_0000_0000),
        ),
        m: range(
            (0x3fd3_dd85_5e08_4112, 0x3fd3_fc25_fb12_abe7),
            (0x13_dd85_5e08_4112_0000_0000_0000, 0x13_fc25_fb12_abe7_0000_0000_0000),
        ),
        n: range(
            (0x3fc0_a178_cea3_19bf, 0x3fc0_d2bc_26e9_e71e),
            (0x8_50bc_6751_8cdf_8000_0000_0000, 0x8_695e_1374_f38f_0000_0000_0000),
        ),
        v: range(
            (0x3e21_61fb_97d0_49d7, 0x3fc0_d2bc_2732_2867),
            (0x22c_3f72_fa09_3ae0_0000, 0x8_695e_1399_1433_8000_0000_0000),
        ),
        y: range(
            (0x3feb_cb50_f633_75e4, 0x3fef_ffff_fee9_e049),
            (0x37_96a1_ec66_ebc8_0000_0000_0000, 0x3f_ffff_fdd3_c092_0000_0000_0000),
        ),
    };
    lemma_range(b.p, 0x4_0000_0000_0000, 0x4_0000_0000_0000);
    lemma_range(b.d, 0x8_0000_0000_0000, 0x8_0000_0000_0000);
    lemma_range(b.t, 0x1_0000_0000_0000, 0x1_0000_0000_0000);
    lemma_range(b.f, 0x1_0000_0000_0000, 0x1_0000_0000_0000);
    lemma_range(b.g, 0x4_0000_0000_0000, 0x4_0000_0000_0000);
    lemma_range(b.h, 0x1_0000_0000_0000, 0x1_0000_0000_0000);
    lemma_range(b.i, 0x2_0000_0000_0000, 0x4_0000_0000_0000);
    lemma_range(b.j, 0x1_0000_0000_0000, 0x1_0000_0000_0000);
    lemma_range(b.k, 0x8000_0000_0000, 0x8000_0000_0000);
    lemma_range(b.l, 0x2000_0000_0000, 0x2000_0000_0000);
    lemma_range(b.m, 0x1_0000_0000_0000, 0x1_0000_0000_0000);
    lemma_range(b.n, 0x8000_0000_0000, 0x8000_0000_0000);
    lemma_range(b.v, 0x20_0000, 0x8000_0000_0000);
    lemma_range(b.y, 0x2_0000_0000_0000, 0x2_0000_0000_0000);
    assert(is_track(in_a, in_e, b));
    assert(between(answer(math, Call::Exp(fmul(fneg(a), a))), in_e));
    lemma_tracked(math, a, in_a, in_e, b);
}

/// From 4.24 to 6 over the square root of 2, the error function lacks at least that.
proof fn lemma_lack_farthest<M: Fn(Call) -> Real>(math: M, a: Real)
    requires
        is_faithful(math),
        is_accurate(math),
        fle(lit(0x4010_f5c2_8f5c_28f6), a),
        fle(a, lit(SIX_IN_SPREADS)),
    ensures
        fle(lit(LACK), lack_of(math, a)),
{
    lemma2_to64();
    lemma2_to64_rest();
    let in_a = range(
        (0x4010_f5c2_8f5c_28f6, 0x4010_f876_ccdf_6cdb),
        (0x10f_5c28_f5c2_8f60_0000_0000_0000, 0x10f_876c_cdf6_cdb0_0000_0000_0000),
    );
    lemma_range(in_a, 0x10_0000_0000_0000, 0x10_0000_0000_0000);
    let in_e = range(
        (0x3e50_5a60_67b1_f5a3, 0x3ff0_0000_0000_0000),
        (0x105a_6067_b1f5_a300_0000, 0x40_0000_0000_0000_0000_0000_0000),
    );
    lemma_range(in_e, 0x100_0000, 0x4_0000_0000_0000);
    lemma_range(
        exactly(0x4032_0000_10c6_f7a1, 0x480_0004_31bd_e840_0000_0000_0000),
        0x40_0000_0000_0000,
        0x40_0000_0000_0000,
    );
    lemma_exponent(
        a,
        0x4010_f876_ccdf_6cdb,
        0x10f_876c_cdf6_cdb0_0000_0000_0000,
        0x4032_0000_10c6_f7a1,
        0x480_0004_31bd_e840_0000_0000_0000,
    );
    let b = Track {
        p: range(
            (0x3ff6_3949_a8c8_1f04, 0x3ff6_3cd4_bfce_5459),
            (0x58_e526_a320_7c10_0000_0000_0000, 0x58_f352_ff39_5164_0000_0000_0000),
        ),
        d: range(
            (0x4003_1ca4_d411_f9c3, 0x4003_1e6a_6039_4787),
            (0x98_e526_a08f_ce18_0000_0000_0000, 0x98_f353_01ca_3c38_0000_0000_0000),
        ),
        t: range(
            (0x3fda_c7a8_14a8_d325, 0x3fda_ca23_9a4b_d56a),
            (0x1a_c7a8_14a8_d325_0000_0000_0000, 0x1a_ca23_9a4b_d56a_0000_0000_0000),
        ),
        f: range(
            (0x3fdc_6ca1_8f24_68e8, 0x3fdc_6f44_1c01_66cc),
            (0x1c_6ca1_8f24_68e8_0000_0000_0000, 0x1c_6f44_1c01_66cc_0000_0000_0000),
        ),
        g: range(
            (0x3ff0_244b_4fbb_9e74, 0x3ff0_24f3_f37d_88e5),
            (0x40_912d_3eee_79d0_0000_0000_0000, 0x40_93cf_cdf6_2394_0000_0000_0000),
        ),
        h: range(
            (0x3fdb_0467_5bba_fab5, 0x3fdb_0802_e087_fdc6),
            (0x1b_0467_5bba_fab5_0000_0000_0000, 0x1b_0802_e087_fdc6_0000_0000_0000),
        ),
        i: range(
            (0x3fef_f837_3aa8_74db, 0x3fef_fa04_fe21_9c03),
            (0x3f_f06e_7550_e9b6_0000_0000_0000, 0x3f_f409_fc43_3806_0000_0000_0000),
        ),
        j: range(
            (0x3fda_c124_6270_7e3e, 0x3fda_c521_e216_f220),
            (0x1a_c124_6270_7e3e_0000_0000_0000, 0x1a_c521_e216_f220_0000_0000_0000),
        ),
        k: range(
            (0x3fc1_17e5_2c1f_6956, 0x3fc1_1fe0_2bff_4808),
            (0x8_8bf2_960f_b4ab_0000_0000_0000, 0x8_8ff0_15ff_a404_0000_0000_0000),
        ),
        l: range(
            (0x3fac_9c21_2a85_7b2e, 0x3fac_ac24_d103_c962),
            (0x3_9384_2550_af65_c000_0000_0000, 0x3_9584_9a20_792c_4000_0000_0000),
        ),
        m: range(
            (0x3fd3_e2a4_ebe7_a1bd, 0x3fd3_e4a5_6162_446a),
            (0x13_e2a4_ebe7_a1bd_0000_0000_0000, 0x13_e4a5_6162_446a_0000_0000_0000),
        ),
        n: range(
            (0x3fc0_a437_e3b8_290b, 0x3fc0_a76f_d55e_7e30),
            (0x8_521b_f1dc_1485_8000_0000_0000, 0x8_53b7_eaaf_3f18_0000_0000_0000),
        ),
        v: range(
            (0x3e21_0237_e2f9_9dfa, 0x3fc0_a76f_d5a6_0582),
            (0x220_46fc_5f33_bf40_0000, 0x8_53b7_ead3_02c1_0000_0000_0000),
        ),
        y: range(
            (0x3feb_d624_0a96_7e9e, 0x3fef_ffff_feef_dc84),
            (0x37_ac48_152c_fd3c_0000_0000_0000, 0x3f_ffff_fddf_b908_0000_0000_0000),
        ),
    };
    lemma_range(b.p, 0x4_0000_0000_0000, 0x4_0000_0000_0000);
    lemma_range(b.d, 0x8_0000_0000_0000, 0x8_0000_0000_0000);
    lemma_range(b.t, 0x1_0000_0000_0000, 0x1_0000_0000_0000);
    lemma_range(b.f, 0x1_0000_0000_0000, 0x1_0000_0000_0000);
    lemma_range(b.g, 0x4_0000_0000_0000, 0x4_0000_0000_0000);
    lemma_range(b.h, 0x1_0000_0000_0000, 0x1_0000_0000_0000);
    lemma_range(b.i, 0x2_0000_0000_0000, 0x2_0000_0000_0000);
    lemma_range(b.j, 0x1_0000_0000_0000, 0x1_0000_0000_0000);
    lemma_range(b.k, 0x8000_0000_0000, 0x8000_0000_0000);
    lemma_range(b.l, 0x2000_0000_0000, 0x2000_0000_0000);
    lemma_range(b.m, 0x1_0000_0000_0000, 0x1_0000_0000_0000);
    lemma_range(b.n, 0x8000_0000_0000, 0x8000_0000_0000);
    lemma_range(b.v, 0x20_0000, 0x8000_0000_0000);
    lemma_range(b.y, 0x2_0000_0000_0000, 0x2_0000_0000_0000);
    assert(is_track(in_a, in_e, b));
    assert(between(answer(math, Call::Exp(fmul(fneg(a), a))), in_e));
    lemma_tracked(math, a, in_a, in_e, b);
}

/// Before 6 the probability to survive does not fall below that.
proof fn lemma_survival_at_least<M: Fn(Call) -> Real>(math: M, z: Real)
    requires
        is_faithful(math),
        is_accurate(math),
        fle(z, lit(SIX)),
    ensures
        fle(lit(RARE), survival_of(math, z)),
{
    lemma2_to64();
    lemma2_to64_rest();
    lemma_coefficients();
    lemma_range(
        exactly(0x4018_0000_0000_0000, 0x180_0000_0000_0000_0000_0000_0000),
        0x10_0000_0000_0000,
        0x10_0000_0000_0000,
    );
    lemma_range(
        exactly(0x3ff6_a09e_667f_3bcd, 0x5a_8279_99fc_ef34_0000_0000_0000),
        0x4_0000_0000_0000,
        0x4_0000_0000_0000,
    );
    let in_spreads = range(
        (0x4010_f876_ccdf_6cd3, 0x4010_f876_ccdf_6cdb),
        (0x10f_876c_cdf6_cd30_0000_0000_0000, 0x10f_876c_cdf6_cdb0_0000_0000_0000),
    );
    lemma_range(in_spreads, 0x10_0000_0000_0000, 0x10_0000_0000_0000);
    law_bounded_quotient(
        lit(SIX),
        exactly(0x4018_0000_0000_0000, 0x180_0000_0000_0000_0000_0000_0000),
        lit(SQRT_2),
        exactly(0x3ff6_a09e_667f_3bcd, 0x5a_8279_99fc_ef34_0000_0000_0000),
        in_spreads,
    );
    let x = fdiv(z, lit(SQRT_2));
    law_division_monotone(z, lit(SIX), lit(SQRT_2));
    let e = erf_of(math, x);
    let a = fabs(x);
    lemma_erf_half_within(math, a);
    lemma_sign_kept(erf_half(math, a));
    lemma_range(exactly(0x3e21_0210_e863_e3cc, 0x220_421d_0c7c_7980_0000), 0x20_0000, 0x20_0000);
    let in_top = range(
        (0x3fef_ffff_feef_deef, 0x3fef_ffff_feef_def3),
        (0x3f_ffff_fddf_bdde_0000_0000_0000, 0x3f_ffff_fddf_bde6_0000_0000_0000),
    );
    lemma_range(in_top, 0x2_0000_0000_0000, 0x2_0000_0000_0000);
    lemma_range(
        exactly(0x3fef_ffff_feef_def3, 0x3f_ffff_fddf_bde6_0000_0000_0000),
        0x2_0000_0000_0000,
        0x2_0000_0000_0000,
    );
    let top = lit(0x3fef_ffff_feef_def3);
    law_bounded_rest(
        ONE,
        one_units(),
        lit(LACK),
        exactly(0x3e21_0210_e863_e3cc, 0x220_421d_0c7c_7980_0000),
        in_top,
    );
    if flt(x, lit(ZERO)) {
        law_negation(fneg(lit(SEVEN_EIGHTHS)), erf_half(math, a));
        law_negation(lit(SEVEN_EIGHTHS), lit(SEVEN_EIGHTHS));
        assert(fle(e, lit(SEVEN_EIGHTHS)));
    } else {
        if fle(a, lit(THREE)) {
            lemma_lack_near(math, a);
        } else if fle(a, lit(0x4010_cccc_cccc_cccd)) {
            lemma_lack_far(math, a);
        } else if fle(a, lit(0x4010_f5c2_8f5c_28f6)) {
            lemma_lack_farther(math, a);
        } else {
            lemma_lack_farthest(math, a);
        }
        law_difference_antitone(lit(LACK), lack_of(math, a), lit(ONE));
        assert(e == fsub(lit(ONE), lack_of(math, a)));
    }
    assert(fle(e, top));
    law_difference_antitone(e, top, lit(ONE));
    let in_rest = range(
        (0x3e21_0210_cfb6_f36e, 0x3e21_0210_d049_0c92),
        (0x220_4219_f6de_6dc0_0000, 0x220_421a_0921_9240_0000),
    );
    lemma_range(in_rest, 0x20_0000, 0x20_0000);
    law_bounded_rest(
        ONE,
        one_units(),
        top,
        exactly(0x3fef_ffff_feef_def3, 0x3f_ffff_fddf_bde6_0000_0000_0000),
        in_rest,
    );
    let least = fsub(lit(ONE), top);
    let rest = fsub(lit(ONE), e);
    lemma_between(least, in_rest);
    lemma_range(
        exactly(0x3fe0_0000_0000_0000, 0x20_0000_0000_0000_0000_0000_0000),
        0x2_0000_0000_0000,
        0x2_0000_0000_0000,
    );
    let in_rare = range(
        (0x3e10_edd5_c4a8_eefe, 0x3e11_2e0b_e826_d695),
        (0x10e_dd5c_4a8e_efe0_0000, 0x112_e0be_826d_6950_0000),
    );
    lemma_range(in_rare, 0x10_0000, 0x10_0000);
    law_bounded_product(
        lit(HALF),
        exactly(0x3fe0_0000_0000_0000, 0x20_0000_0000_0000_0000_0000_0000),
        least,
        in_rest,
        in_rare,
    );
    law_scaling_monotone(least, rest, lit(HALF));
    law_commutes(least, lit(HALF));
    law_commutes(rest, lit(HALF));
}

/// At 6 the far form of the weight is below the near one.
proof fn lemma_far_at_six<M: Fn(Call) -> Real>(math: M)
    requires
        is_accurate(math),
        is_faithful(math),
    ensures
        fle(far_survival(math, lit(SIX)), fneg(lit(RARE_LOG))),
{
    lemma2_to64();
    lemma2_to64_rest();
    lemma_coefficients();
    lemma_range(
        exactly(0x4018_0000_0000_0000, 0x180_0000_0000_0000_0000_0000_0000),
        0x10_0000_0000_0000,
        0x10_0000_0000_0000,
    );
    lemma_range(
        exactly(0x4042_0000_0000_0000, 0x900_0000_0000_0000_0000_0000_0000),
        0x80_0000_0000_0000,
        0x80_0000_0000_0000,
    );
    lemma_range(
        exactly(0x4032_0000_0000_0000, 0x480_0000_0000_0000_0000_0000_0000),
        0x40_0000_0000_0000,
        0x40_0000_0000_0000,
    );
    lemma_range(
        exactly(0x3fe0_0000_0000_0000, 0x20_0000_0000_0000_0000_0000_0000),
        0x2_0000_0000_0000,
        0x2_0000_0000_0000,
    );
    lemma_range(
        exactly(0x3ffc_aacd_9e83_e426, 0x72_ab36_7a0f_9098_0000_0000_0000),
        0x4_0000_0000_0000,
        0x4_0000_0000_0000,
    );
    let six = lit(SIX);
    let z2 = fmul(six, six);
    law_bounded_product(
        six,
        exactly(0x4018_0000_0000_0000, 0x180_0000_0000_0000_0000_0000_0000),
        six,
        exactly(0x4018_0000_0000_0000, 0x180_0000_0000_0000_0000_0000_0000),
        exactly(0x4042_0000_0000_0000, 0x900_0000_0000_0000_0000_0000_0000),
    );
    let half = fmul(lit(HALF), z2);
    law_bounded_product(
        lit(HALF),
        exactly(0x3fe0_0000_0000_0000, 0x20_0000_0000_0000_0000_0000_0000),
        z2,
        exactly(0x4042_0000_0000_0000, 0x900_0000_0000_0000_0000_0000_0000),
        exactly(0x4032_0000_0000_0000, 0x480_0000_0000_0000_0000_0000_0000),
    );
    let in_part = range(
        (0x3f9c_71c7_1c71_c71a, 0x3f9c_71c7_1c71_c71e),
        (0x1_c71c_71c7_1c71_a000_0000_0000, 0x1_c71c_71c7_1c71_e000_0000_0000),
    );
    lemma_range(in_part, 0x1000_0000_0000, 0x1000_0000_0000);
    let part = fdiv(lit(ONE), z2);
    law_bounded_quotient(
        lit(ONE),
        exactly(ONE, one_units()),
        z2,
        exactly(0x4042_0000_0000_0000, 0x900_0000_0000_0000_0000_0000_0000),
        in_part,
    );
    lemma_between(half, exactly(0x4032_0000_0000_0000, 0x480_0000_0000_0000_0000_0000_0000));
    lemma_between(
        lit(0x4032_0000_0000_0000),
        exactly(0x4032_0000_0000_0000, 0x480_0000_0000_0000_0000_0000_0000),
    );
    assert(half == lit(0x4032_0000_0000_0000));
    let in_sum = range(
        (0x4032_0717_58e2_1965, 0x4032_071d_e69a_d42c),
        (0x481_c5d6_3886_5940_0000_0000_0000, 0x481_c779_a6b5_0b00_0000_0000_0000),
    );
    lemma_range(in_sum, 0x40_0000_0000_0000, 0x40_0000_0000_0000);
    law_bounded_sum(
        part,
        in_part,
        0x4032_0000_0000_0000,
        0x480_0000_0000_0000_0000_0000_0000,
        in_sum,
    );
    let s = fadd(half, part);
    lemma_between(s, in_sum);
    // the logarithm of 6
    let l = answer(math, Call::Ln(six));
    lemma_range(
        exactly(0x4032_0717_58e2_1965, 0x481_c5d6_3886_5940_0000_0000_0000),
        0x40_0000_0000_0000,
        0x40_0000_0000_0000,
    );
    let in_first = range(
        (0x4033_d1bd_a511_9ce0, 0x4033_d1ca_c083_126f),
        (0x4f4_6f69_4467_3800_0000_0000_0000, 0x4f4_72b0_20c4_9bc0_0000_0000_0000),
    );
    lemma_range(in_first, 0x40_0000_0000_0000, 0x40_0000_0000_0000);
    law_bounded_sum(
        lit(0x4032_0717_58e2_1965),
        exactly(0x4032_0717_58e2_1965, 0x481_c5d6_3886_5940_0000_0000_0000),
        LOG_SIX,
        0x72_ab36_7a0f_9098_0000_0000_0000,
        in_first,
    );
    let low = lit(0x4032_0717_58e2_1965);
    law_sums_ordered(low, s, lit(LOG_SIX), l);
    // half the logarithm of twice pi
    lemma_range(
        exactly(0x4000_0000_0000_0000, 0x80_0000_0000_0000_0000_0000_0000),
        0x8_0000_0000_0000,
        0x8_0000_0000_0000,
    );
    lemma_range(
        exactly(0x4009_21fb_5444_2d18, 0xc9_0fda_a221_68c0_0000_0000_0000),
        0x8_0000_0000_0000,
        0x8_0000_0000_0000,
    );
    lemma_range(
        exactly(0x4019_21fb_5444_2d18, 0x192_1fb5_4442_d180_0000_0000_0000),
        0x10_0000_0000_0000,
        0x10_0000_0000_0000,
    );
    law_bounded_product(
        lit(TWO),
        exactly(0x4000_0000_0000_0000, 0x80_0000_0000_0000_0000_0000_0000),
        lit(PI),
        exactly(0x4009_21fb_5444_2d18, 0xc9_0fda_a221_68c0_0000_0000_0000),
        exactly(0x4019_21fb_5444_2d18, 0x192_1fb5_4442_d180_0000_0000_0000),
    );
    lemma_between(
        fmul(lit(TWO), lit(PI)),
        exactly(0x4019_21fb_5444_2d18, 0x192_1fb5_4442_d180_0000_0000_0000),
    );
    lemma_between(lit(TWO_PI), exactly(0x4019_21fb_5444_2d18, 0x192_1fb5_4442_d180_0000_0000_0000));
    assert(fmul(lit(TWO), lit(PI)) == lit(TWO_PI));
    lemma_range(
        exactly(0x3ffd_67a0_f909_6bba, 0x75_9e83_e425_aee8_0000_0000_0000),
        0x4_0000_0000_0000,
        0x4_0000_0000_0000,
    );
    let in_half = range(
        (0x3fed_678c_0053_e2d6, 0x3fed_67b5_f1be_f49d),
        (0x3a_cf18_00a7_c5ac_0000_0000_0000, 0x3a_cf6b_e37d_e93a_0000_0000_0000),
    );
    lemma_range(in_half, 0x2_0000_0000_0000, 0x2_0000_0000_0000);
    law_bounded_product(
        lit(HALF),
        exactly(0x3fe0_0000_0000_0000, 0x20_0000_0000_0000_0000_0000_0000),
        lit(LOG_TWO_PI),
        exactly(0x3ffd_67a0_f909_6bba, 0x75_9e83_e425_aee8_0000_0000_0000),
        in_half,
    );
    law_product_monotone(lit(LOG_TWO_PI), ln_2pi(math), lit(HALF));
    law_commutes(lit(LOG_TWO_PI), lit(HALF));
    law_commutes(ln_2pi(math), lit(HALF));
    let c = fmul(lit(HALF), ln_2pi(math));
    let both = fadd(s, l);
    lemma_range(
        exactly(0x4033_d1bd_a511_9ce0, 0x4f4_6f69_4467_3800_0000_0000_0000),
        0x40_0000_0000_0000,
        0x40_0000_0000_0000,
    );
    lemma_range(
        exactly(0x3fed_678c_0053_e2d6, 0x3a_cf18_00a7_c5ac_0000_0000_0000),
        0x2_0000_0000_0000,
        0x2_0000_0000_0000,
    );
    let in_second = range(
        (0x4034_bcf4_1f21_2d77, 0x4034_bd2f_1a9f_be77),
        (0x52f_3d07_c84b_5dc0_0000_0000_0000, 0x52f_4bc6_a7ef_9dc0_0000_0000_0000),
    );
    lemma_range(in_second, 0x40_0000_0000_0000, 0x40_0000_0000_0000);
    law_bounded_sum(
        lit(0x4033_d1bd_a511_9ce0),
        exactly(0x4033_d1bd_a511_9ce0, 0x4f4_6f69_4467_3800_0000_0000_0000),
        0x3fed_678c_0053_e2d6,
        0x3a_cf18_00a7_c5ac_0000_0000_0000,
        in_second,
    );
    law_sums_ordered(lit(0x4033_d1bd_a511_9ce0), both, lit(0x3fed_678c_0053_e2d6), c);
    let all = fadd(both, c);
    assert(fle(lit(RARE_LOG), all));
    law_signs(s, l);
    law_signs(both, c);
    law_negation(lit(RARE_LOG), all);
}

/// Whether `z` is below 6 and found likelier to be exceeded than `y` by the roundings alone,
/// by 2^-46 at most.
pub open spec fn is_rounding_apart<M: Fn(Call) -> Real>(math: M, y: Real, z: Real) -> bool {
    &&& flt(z, lit(SIX))
    &&& survival_of(math, y).value() < survival_of(math, z).value()
    &&& survival_of(math, z).value() <= survival_of(math, y).value() + 16 * grain()
}

/// The weight of a censored life does not rise with `z`, but where the two probabilities
/// agree within the roundings: to have lasted longer is never more likely.
pub proof fn law_weight_falls<M: Fn(Call) -> Real>(math: M, y: Real, z: Real)
    requires
        is_faithful(math),
        is_accurate(math),
        fle(y, z),
    ensures
        fle(log_phi_cdf_of(math, z), log_phi_cdf_of(math, y)) || is_rounding_apart(math, y, z),
        fle(lit(SIX), z) ==> fle(log_phi_cdf_of(math, z), log_phi_cdf_of(math, y)),
{
    if fle(lit(SIX), y) {
        lemma_far_falls(math, y, z);
    } else if fle(lit(SIX), z) {
        lemma_far_falls(math, lit(SIX), z);
        lemma_far_at_six(math);
        lemma_survival_at_least(math, y);
    } else {
        let p = survival_of(math, y);
        let q = survival_of(math, z);
        law_survival_is_probability(math, y);
        law_survival_is_probability(math, z);
        if !fle(q, p) {
            law_survival_nearly_falls(math, y, z);
            assert(mag(0) == 0);
            lemma_mag_monotone(p.size(), q.size());
        }
    }
}

} // verus!
