//! What a fit prepares from its observations, and the likelihood.
use vstd::prelude::*;
use crate::host::{answer, ask, is_faithful, is_math, Call};
use crate::linalg::{greatest, greatest_of, law_extremes, least, least_of, mean, mean_of};
use crate::models::{mean_log_life, mean_log_life_of, n_base, physical, physical_of, ModelKind,
    Scale};
use crate::normal::{fsquare, norm_log_cdf, norm_log_cdf_of, norm_log_pdf, norm_log_pdf_of,
    square_of};
use crate::number::{fle, flt, fmax, fneg, lit, mag, Real, BINADE};
use crate::number::arith::{fadd, fdiv, fmul, fsub};
use crate::number::consts::{HALF, ONE, PLUS_INFINITY, ZERO};
use crate::number::error::{law_difference_error, law_sum_error, size_of};
use crate::number::order::{law_commutes, law_difference_antitone, law_halves_add_up,
    law_product_monotone, law_signs, law_sum_grows, law_sum_monotone, law_sums_ordered,
    law_zero_added};
use crate::stats::{Envelope, FitConfig, FixedHeat, Obs, ObsKind, Seg};
use crate::text::{index_in, lemma_index_in, position, same, views};

verus! {

/// 1e-12, the least damage whose logarithm is taken.
pub const LEAST_DAMAGE: u64 = 0x3d71_9799_812d_ea11;

/// 1e-4, the least spread of the lives.
pub const LEAST_SPREAD: u64 = 0x3f1a_36e2_eb1c_432d;

// ---- the points of the observations ----

/// Temperature and stress of the segments of the first `k` observations.
pub open spec fn segment_points(obs: Seq<Obs>, k: nat) -> Seq<(Real, Real)>
    decreases k,
{
    if k == 0 {
        Seq::empty()
    } else {
        segment_points(obs, (k - 1) as nat) + obs[k - 1].segments@.map_values(
            |s: Seg| (s.temp_k, s.stress),
        )
    }
}

/// Temperature and stress of every observation, then of every segment.
pub open spec fn points_of(obs: Seq<Obs>) -> Seq<(Real, Real)> {
    obs.map_values(|o: Obs| (o.temp_k, o.stress)) + segment_points(obs, obs.len())
}

pub open spec fn temps_of(points: Seq<(Real, Real)>) -> Seq<Real> {
    points.map_values(|p: (Real, Real)| p.0)
}

pub open spec fn stresses_of(points: Seq<(Real, Real)>) -> Seq<Real> {
    points.map_values(|p: (Real, Real)| p.1)
}

fn push_segments(obs: &Obs, out: &mut Vec<(Real, Real)>)
    ensures
        final(out)@ == old(out)@ + obs.segments@.map_values(|s: Seg| (s.temp_k, s.stress)),
{
    let ghost before = out@;
    let mut j: usize = 0;
    while j < obs.segments.len()
        invariant
            j <= obs.segments@.len(),
            out@ == before + obs.segments@.take(j as int).map_values(|s: Seg| (s.temp_k, s.stress)),
        decreases obs.segments@.len() - j,
    {
        out.push((obs.segments[j].temp_k, obs.segments[j].stress));
        proof {
            assert(obs.segments@.take(j + 1) =~= obs.segments@.take(j as int).push(
                obs.segments@[j as int],
            ));
            assert(out@ =~= before + obs.segments@.take(j + 1).map_values(
                |s: Seg| (s.temp_k, s.stress),
            ));
        }
        j = j + 1;
    }
    proof {
        assert(obs.segments@.take(j as int) =~= obs.segments@);
    }
}

fn points(obs: &Vec<Obs>) -> (r: Vec<(Real, Real)>)
    ensures
        r@ == points_of(obs@),
{
    let mut out: Vec<(Real, Real)> = Vec::new();
    let ghost heads = obs@.map_values(|o: Obs| (o.temp_k, o.stress));
    let mut i: usize = 0;
    while i < obs.len()
        invariant
            i <= obs@.len(),
            heads == obs@.map_values(|o: Obs| (o.temp_k, o.stress)),
            out@ == heads.take(i as int),
        decreases obs@.len() - i,
    {
        out.push((obs[i].temp_k, obs[i].stress));
        proof {
            assert(out@ =~= heads.take(i + 1));
        }
        i = i + 1;
    }
    proof {
        assert(out@ =~= heads + segment_points(obs@, 0));
    }
    i = 0;
    while i < obs.len()
        invariant
            i <= obs@.len(),
            out@ == heads + segment_points(obs@, i as nat),
        decreases obs@.len() - i,
    {
        push_segments(&obs[i], &mut out);
        proof {
            assert(out@ =~= heads + segment_points(obs@, (i + 1) as nat));
        }
        i = i + 1;
    }
    out
}

fn firsts(points: &Vec<(Real, Real)>) -> (r: Vec<Real>)
    ensures
        r@ == temps_of(points@),
{
    let mut out: Vec<Real> = Vec::new();
    let mut i: usize = 0;
    while i < points.len()
        invariant
            i <= points@.len(),
            out@ == temps_of(points@).take(i as int),
        decreases points@.len() - i,
    {
        out.push(points[i].0);
        proof {
            assert(out@ =~= temps_of(points@).take(i + 1));
        }
        i = i + 1;
    }
    proof {
        assert(out@ =~= temps_of(points@));
    }
    out
}

fn seconds(points: &Vec<(Real, Real)>) -> (r: Vec<Real>)
    ensures
        r@ == stresses_of(points@),
{
    let mut out: Vec<Real> = Vec::new();
    let mut i: usize = 0;
    while i < points.len()
        invariant
            i <= points@.len(),
            out@ == stresses_of(points@).take(i as int),
        decreases points@.len() - i,
    {
        out.push(points[i].1);
        proof {
            assert(out@ =~= stresses_of(points@).take(i + 1));
        }
        i = i + 1;
    }
    proof {
        assert(out@ =~= stresses_of(points@));
    }
    out
}

/// The squares of the distances from `m`.
pub open spec fn squares_from(xs: Seq<Real>, m: Real) -> Seq<Real> {
    xs.map_values(|x: Real| fsquare(fsub(x, m)))
}

pub fn squared_distances(xs: &Vec<Real>, m: Real) -> (r: Vec<Real>)
    ensures
        r@ == squares_from(xs@, m),
{
    let mut out: Vec<Real> = Vec::new();
    let mut i: usize = 0;
    while i < xs.len()
        invariant
            i <= xs@.len(),
            out@ == squares_from(xs@, m).take(i as int),
        decreases xs@.len() - i,
    {
        out.push(square_of(xs[i].minus(m)));
        proof {
            assert(out@ =~= squares_from(xs@, m).take(i + 1));
        }
        i = i + 1;
    }
    proof {
        assert(out@ =~= squares_from(xs@, m));
    }
    out
}

/// The standard deviation about `m`, no less than 1.
pub open spec fn deviation_of<M: Fn(Call) -> Real>(math: M, xs: Seq<Real>, m: Real) -> Real {
    fmax(answer(math, Call::Sqrt(mean_of(squares_from(xs, m)))), lit(ONE))
}

fn deviation<M: Fn(Call) -> Real>(math: &M, xs: &Vec<Real>, m: Real) -> (r: Real)
    requires
        is_math(*math),
    ensures
        r == deviation_of(*math, xs@, m),
{
    ask(math, Call::Sqrt(mean(&squared_distances(xs, m)))).max(lit(ONE))
}

// ---- the envelope ----

/// Temperature and stress of the first `k` observations, each before its segments.
pub open spec fn walk_of(obs: Seq<Obs>, k: nat) -> Seq<(Real, Real)>
    decreases k,
{
    if k == 0 {
        Seq::empty()
    } else {
        walk_of(obs, (k - 1) as nat).push((obs[k - 1].temp_k, obs[k - 1].stress)) + obs[k
            - 1].segments@.map_values(|s: Seg| (s.temp_k, s.stress))
    }
}

/// The least and greatest temperature and stress of observations and segments.
pub open spec fn envelope_of(obs: Seq<Obs>) -> Envelope {
    let w = walk_of(obs, obs.len());
    Envelope {
        temp_min_k: least(temps_of(w), w.len()),
        temp_max_k: greatest(temps_of(w), w.len()),
        stress_min_mpa: least(stresses_of(w), w.len()),
        stress_max_mpa: greatest(stresses_of(w), w.len()),
    }
}

/// The envelope is the smallest box that holds every observation and every segment: none of
/// them lies outside, and each of its sides is touched by one.
pub proof fn law_envelope_is_smallest(obs: Seq<Obs>)
    requires
        obs.len() > 0,
        forall|i: int|
            0 <= i < walk_of(obs, obs.len()).len() ==> !(#[trigger] walk_of(
                obs,
                obs.len(),
            )[i]).0.nan() && !walk_of(obs, obs.len())[i].1.nan(),
    ensures
        ({
            let w = walk_of(obs, obs.len());
            let e = envelope_of(obs);
            &&& forall|i: int|
                0 <= i < w.len() ==> fle(e.temp_min_k, (#[trigger] w[i]).0) && fle(
                    w[i].0,
                    e.temp_max_k,
                ) && fle(e.stress_min_mpa, w[i].1) && fle(w[i].1, e.stress_max_mpa)
            &&& exists|i: int| 0 <= i < w.len() && (#[trigger] w[i]).0 == e.temp_min_k
            &&& exists|i: int| 0 <= i < w.len() && (#[trigger] w[i]).0 == e.temp_max_k
            &&& exists|i: int| 0 <= i < w.len() && (#[trigger] w[i]).1 == e.stress_min_mpa
            &&& exists|i: int| 0 <= i < w.len() && (#[trigger] w[i]).1 == e.stress_max_mpa
        }),
{
    let w = walk_of(obs, obs.len());
    let t = temps_of(w);
    let s = stresses_of(w);
    assert(w.len() > 0);
    assert forall|i: int| 0 <= i < w.len() implies !(#[trigger] t[i]).nan() && !s[i].nan() by {
        assert(!w[i].0.nan());
    }
    assert forall|i: int| 0 <= i < w.len() implies !(#[trigger] s[i]).nan() by {
        assert(!t[i].nan());
    }
    law_extremes(t, t.len());
    law_extremes(s, s.len());
    let e = envelope_of(obs);
    assert forall|i: int| 0 <= i < w.len() implies fle(e.temp_min_k, (#[trigger] w[i]).0) && fle(
        w[i].0,
        e.temp_max_k,
    ) && fle(e.stress_min_mpa, w[i].1) && fle(w[i].1, e.stress_max_mpa) by {
        assert(t[i] == w[i].0 && s[i] == w[i].1);
    }
    let a = choose|i: int| 0 <= i < t.len() && #[trigger] t[i] == least(t, t.len());
    let b = choose|i: int| 0 <= i < t.len() && #[trigger] t[i] == greatest(t, t.len());
    let c = choose|i: int| 0 <= i < s.len() && #[trigger] s[i] == least(s, s.len());
    let d = choose|i: int| 0 <= i < s.len() && #[trigger] s[i] == greatest(s, s.len());
    assert(w[a].0 == e.temp_min_k);
    assert(w[b].0 == e.temp_max_k);
    assert(w[c].1 == e.stress_min_mpa);
    assert(w[d].1 == e.stress_max_mpa);
}

pub fn envelope(obs: &Vec<Obs>) -> (r: Envelope)
    ensures
        r == envelope_of(obs@),
{
    let mut w: Vec<(Real, Real)> = Vec::new();
    let mut i: usize = 0;
    while i < obs.len()
        invariant
            i <= obs@.len(),
            w@ == walk_of(obs@, i as nat),
        decreases obs@.len() - i,
    {
        w.push((obs[i].temp_k, obs[i].stress));
        push_segments(&obs[i], &mut w);
        i = i + 1;
    }
    let t: Vec<Real> = firsts(&w);
    let s: Vec<Real> = seconds(&w);
    Envelope {
        temp_min_k: least_of(&t),
        temp_max_k: greatest_of(&t),
        stress_min_mpa: least_of(&s),
        stress_max_mpa: greatest_of(&s),
    }
}

// ---- the heats ----

pub open spec fn fixed_names(fixed: Seq<FixedHeat>) -> Seq<Seq<char>> {
    fixed.map_values(|f: FixedHeat| f.heat@)
}

/// Whether the bias of a heat is free: it is neither the reference nor fixed by the user.
pub open spec fn is_free(cfg: FitConfig, h: Seq<char>) -> bool {
    h != cfg.reference_heat@ && !fixed_names(cfg.fixed_heats@).contains(h)
}

/// The number of free biases among the first `k` heats.
pub open spec fn free_count(cfg: FitConfig, k: nat) -> nat
    decreases k,
{
    if k == 0 {
        0
    } else {
        free_count(cfg, (k - 1) as nat) + if is_free(cfg, cfg.heats@[k - 1]@) {
            1nat
        } else {
            0nat
        }
    }
}

/// The place of the `i`-th heat among the free biases, or -1.
pub open spec fn free_of(cfg: FitConfig, i: int) -> int {
    if is_free(cfg, cfg.heats@[i]@) {
        free_count(cfg, i as nat) as int
    } else {
        -1
    }
}

/// The bias that the first `k` entries of the user fix for the `i`-th heat, 0 if none does.
/// That of the reference stays 0 whatever they say.
pub open spec fn fixed_of(cfg: FitConfig, i: int, k: nat) -> Real
    decreases k,
{
    if k == 0 {
        lit(ZERO)
    } else if cfg.heats@[i]@ != cfg.reference_heat@ && index_in(
        views(cfg.heats@),
        cfg.fixed_heats@[k - 1].heat@,
    ) == Some(i) {
        cfg.fixed_heats@[k - 1].bias
    } else {
        fixed_of(cfg, i, (k - 1) as nat)
    }
}

pub proof fn lemma_free_count(cfg: FitConfig, i: nat, k: nat)
    requires
        i <= k,
    ensures
        free_count(cfg, i) <= free_count(cfg, k) <= k,
        i < k && is_free(cfg, cfg.heats@[i as int]@) ==> free_count(cfg, i) < free_count(cfg, k),
    decreases k,
{
    if k > 0 {
        if i < k {
            lemma_free_count(cfg, i, (k - 1) as nat);
        } else {
            lemma_free_count(cfg, (k - 1) as nat, (k - 1) as nat);
        }
    }
}

/// Whether the heats can be counted.
pub open spec fn is_sized(cfg: FitConfig) -> bool {
    cfg.heats@.len() <= i32::MAX
}

/// Whether every observation is of a known heat, and the heats can be counted.
pub open spec fn is_config(cfg: FitConfig) -> bool {
    &&& is_sized(cfg)
    &&& forall|i: int|
        0 <= i < cfg.observations@.len() ==> views(cfg.heats@).contains(
            (#[trigger] cfg.observations@[i]).heat@,
        )
}

// ---- the workspace ----

/// The model's parameters, then the free biases, then the logarithm of the spread.
pub struct Workspace<'a> {
    pub cfg: &'a FitConfig,
    pub nb: usize,
    pub nfree_heats: usize,
    pub scale: Scale,
    pub temp_max_k: Real,
    /// For each heat its place among the free biases, or -1.
    pub free_heat_of: Vec<i32>,
    pub fixed_bias: Vec<Real>,
}

/// Centre and spread of the points.
pub open spec fn scale_of<M: Fn(Call) -> Real>(math: M, obs: Seq<Obs>) -> Scale {
    let t = temps_of(points_of(obs));
    let s = stresses_of(points_of(obs));
    Scale {
        t0: mean_of(t),
        td: deviation_of(math, t, mean_of(t)),
        s0: mean_of(s),
        sd: deviation_of(math, s, mean_of(s)),
    }
}

pub open spec fn hottest(obs: Seq<Obs>) -> Real {
    let t = temps_of(points_of(obs));
    greatest(t, t.len())
}

/// The number of values that a fit searches for.
pub open spec fn dimensions(cfg: FitConfig) -> nat {
    n_base(cfg.kind) as nat + free_count(cfg, cfg.heats@.len()) + 1
}

/// The bias of the `i`-th heat.
pub open spec fn bias_of(cfg: FitConfig, i: int, raw: Seq<Real>) -> Real {
    if free_of(cfg, i) == -1 {
        fixed_of(cfg, i, cfg.fixed_heats@.len())
    } else {
        raw[n_base(cfg.kind) as int + free_of(cfg, i)]
    }
}

/// The place of a heat that is in the list.
pub open spec fn heat_at(cfg: FitConfig, h: Seq<char>) -> int {
    index_in(views(cfg.heats@), h)->0
}

fn is_free_heat(cfg: &FitConfig, h: &str) -> (r: bool)
    ensures
        r == is_free(*cfg, h@),
{
    if same(h, cfg.reference_heat.as_str()) {
        return false;
    }
    let ghost names = fixed_names(cfg.fixed_heats@);
    let mut i: usize = 0;
    while i < cfg.fixed_heats.len()
        invariant
            i <= cfg.fixed_heats@.len(),
            names == fixed_names(cfg.fixed_heats@),
            forall|k: int| 0 <= k < i ==> names[k] != h@,
        decreases cfg.fixed_heats@.len() - i,
    {
        if same(cfg.fixed_heats[i].heat.as_str(), h) {
            proof {
                assert(names[i as int] == h@);
            }
            return false;
        }
        i = i + 1;
    }
    true
}

fn fixed_biases(cfg: &FitConfig) -> (r: Vec<Real>)
    ensures
        r@.len() == cfg.heats@.len(),
        forall|i: int|
            0 <= i < r@.len() ==> #[trigger] r@[i] == fixed_of(*cfg, i, cfg.fixed_heats@.len()),
{
    let mut out: Vec<Real> = Vec::new();
    let mut i: usize = 0;
    while i < cfg.heats.len()
        invariant
            i <= cfg.heats@.len(),
            out@.len() == i,
            forall|k: int| 0 <= k < i ==> #[trigger] out@[k] == lit(ZERO),
        decreases cfg.heats@.len() - i,
    {
        out.push(lit(ZERO));
        i = i + 1;
    }
    let mut f: usize = 0;
    while f < cfg.fixed_heats.len()
        invariant
            f <= cfg.fixed_heats@.len(),
            out@.len() == cfg.heats@.len(),
            forall|k: int| 0 <= k < out@.len() ==> #[trigger] out@[k] == fixed_of(*cfg, k, f as nat),
        decreases cfg.fixed_heats@.len() - f,
    {
        match position(&cfg.heats, cfg.fixed_heats[f].heat.as_str()) {
            Some(at) => {
                if !same(cfg.heats[at].as_str(), cfg.reference_heat.as_str()) {
                    out.set(at, cfg.fixed_heats[f].bias);
                }
            },
            None => {},
        }
        f = f + 1;
    }
    out
}

impl<'a> Workspace<'a> {
    /// Whether the workspace is that of its configuration.
    pub open spec fn built<M: Fn(Call) -> Real>(self, math: M) -> bool {
        &&& is_sized(*self.cfg)
        &&& self.nb == n_base(self.cfg.kind)
        &&& self.nfree_heats == free_count(*self.cfg, self.cfg.heats@.len())
        &&& self.scale == scale_of(math, self.cfg.observations@)
        &&& self.temp_max_k == hottest(self.cfg.observations@)
        &&& self.free_heat_of@.len() == self.cfg.heats@.len()
        &&& forall|i: int|
            0 <= i < self.cfg.heats@.len() ==> #[trigger] self.free_heat_of@[i] == free_of(
                *self.cfg,
                i,
            )
        &&& self.fixed_bias@.len() == self.cfg.heats@.len()
        &&& forall|i: int|
            0 <= i < self.cfg.heats@.len() ==> #[trigger] self.fixed_bias@[i] == fixed_of(
                *self.cfg,
                i,
                self.cfg.fixed_heats@.len(),
            )
    }

    pub fn build<M: Fn(Call) -> Real>(cfg: &'a FitConfig, math: &M) -> (r: Self)
        requires
            is_math(*math),
            is_sized(*cfg),
        ensures
            r.cfg == cfg,
            r.built(*math),
    {
        let at: Vec<(Real, Real)> = points(&cfg.observations);
        let temps: Vec<Real> = firsts(&at);
        let stresses: Vec<Real> = seconds(&at);
        let t0: Real = mean(&temps);
        let s0: Real = mean(&stresses);
        let td: Real = deviation(math, &temps, t0);
        let sd: Real = deviation(math, &stresses, s0);
        let temp_max_k: Real = greatest_of(&temps);
        let fixed_bias: Vec<Real> = fixed_biases(cfg);
        let mut free_heat_of: Vec<i32> = Vec::new();
        let mut next: i32 = 0;
        let mut i: usize = 0;
        while i < cfg.heats.len()
            invariant
                is_sized(*cfg),
                i <= cfg.heats@.len(),
                next == free_count(*cfg, i as nat),
                next <= i,
                free_heat_of@.len() == i,
                forall|k: int| 0 <= k < i ==> #[trigger] free_heat_of@[k] == free_of(*cfg, k),
            decreases cfg.heats@.len() - i,
        {
            if is_free_heat(cfg, cfg.heats[i].as_str()) {
                free_heat_of.push(next);
                next = next + 1;
            } else {
                free_heat_of.push(-1);
            }
            i = i + 1;
        }
        Workspace {
            cfg,
            nb: n_base(cfg.kind),
            nfree_heats: next as usize,
            scale: Scale { t0, td, s0, sd },
            temp_max_k,
            free_heat_of,
            fixed_bias,
        }
    }

    pub fn ndim(&self) -> (r: usize)
        requires
            self.nb <= 5,
            self.nfree_heats <= i32::MAX,
        ensures
            r == self.nb + self.nfree_heats + 1,
    {
        self.nb + self.nfree_heats + 1
    }

    pub fn sigma_index(&self) -> (r: usize)
        requires
            self.nb <= 5,
            self.nfree_heats <= i32::MAX,
        ensures
            r == self.nb + self.nfree_heats,
    {
        self.nb + self.nfree_heats
    }

    /// The parameters of the curve that the searched values stand for.
    pub fn phys_params<M: Fn(Call) -> Real>(&self, math: &M, raw: &Vec<Real>) -> (r: Vec<Real>)
        requires
            is_math(*math),
            raw@.len() >= n_base(self.cfg.kind),
        ensures
            r@ == physical_of(*math, self.cfg.kind, raw@, self.temp_max_k),
            r@.len() == n_base(self.cfg.kind),
    {
        physical(math, self.cfg.kind, raw, self.temp_max_k)
    }

    pub fn heat_bias<M: Fn(Call) -> Real>(&self, heat_idx: usize, raw: &Vec<Real>, math: &M) -> (r: Real)
        requires
            self.built(*math),
            heat_idx < self.cfg.heats@.len(),
            raw@.len() == dimensions(*self.cfg),
        ensures
            r == bias_of(*self.cfg, heat_idx as int, raw@),
    {
        let j: i32 = self.free_heat_of[heat_idx];
        proof {
            lemma_free_count(*self.cfg, heat_idx as nat, self.cfg.heats@.len());
        }
        if j == -1 {
            self.fixed_bias[heat_idx]
        } else {
            raw[self.nb + j as usize]
        }
    }
}

pub proof fn lemma_dimensions(cfg: FitConfig)
    requires
        is_sized(cfg),
    ensures
        free_count(cfg, cfg.heats@.len()) <= i32::MAX,
        3 <= n_base(cfg.kind) <= 5,
        4 <= dimensions(cfg) <= i32::MAX + 6,
{
    lemma_free_count(cfg, 0, cfg.heats@.len());
}

// ---- the likelihood ----

/// The damage of the first `k` segments.
pub open spec fn damage_of<M: Fn(Call) -> Real>(
    math: M,
    kind: ModelKind,
    segs: Seq<Seg>,
    p: Seq<Real>,
    scale: Scale,
    bias: Real,
    k: nat,
) -> Real
    decreases k,
{
    if k == 0 {
        lit(ZERO)
    } else {
        let s = segs[k - 1];
        let mu = mean_log_life_of(kind, p, s.temp_k, s.stress, scale);
        fadd(
            damage_of(math, kind, segs, p, scale, bias, (k - 1) as nat),
            fmul(s.hours, answer(math, Call::Pow10(fsub(fneg(mu), bias)))),
        )
    }
}

/// The statistic of an observation: the log10 of its damage, or how far its log10 life lies
/// from the mean.
pub open spec fn g_of<M: Fn(Call) -> Real>(
    math: M,
    cfg: FitConfig,
    o: Obs,
    p: Seq<Real>,
    raw: Seq<Real>,
) -> Real {
    let bias = bias_of(cfg, heat_at(cfg, o.heat@), raw);
    let scale = scale_of(math, cfg.observations@);
    if o.variable {
        answer(
            math,
            Call::Log10(
                fmax(
                    damage_of(math, cfg.kind, o.segments@, p, scale, bias, o.segments@.len()),
                    lit(LEAST_DAMAGE),
                ),
            ),
        )
    } else {
        fsub(o.y_time, fadd(mean_log_life_of(cfg.kind, p, o.temp_k, o.stress, scale), bias))
    }
}

pub fn obs_g<M: Fn(Call) -> Real>(
    math: &M,
    ws: &Workspace,
    obs: &Obs,
    p: &Vec<Real>,
    raw: &Vec<Real>,
) -> (r: Real)
    requires
        is_math(*math),
        ws.built(*math),
        views(ws.cfg.heats@).contains(obs.heat@),
        p@.len() == n_base(ws.cfg.kind),
        raw@.len() == dimensions(*ws.cfg),
    ensures
        r == g_of(*math, *ws.cfg, *obs, p@, raw@),
{
    proof {
        lemma_index_in(views(ws.cfg.heats@), obs.heat@);
    }
    let hi: usize = position(&ws.cfg.heats, obs.heat.as_str()).unwrap();
    let bias: Real = ws.heat_bias(hi, raw, math);
    if obs.variable {
        let mut d: Real = lit(ZERO);
        let mut i: usize = 0;
        while i < obs.segments.len()
            invariant
                is_math(*math),
                i <= obs.segments@.len(),
                p@.len() == n_base(ws.cfg.kind),
                d == damage_of(*math, ws.cfg.kind, obs.segments@, p@, ws.scale, bias, i as nat),
            decreases obs.segments@.len() - i,
        {
            let s: Seg = obs.segments[i];
            let mu: Real = mean_log_life(ws.cfg.kind, p, s.temp_k, s.stress, &ws.scale);
            d = d.plus(s.hours.times(ask(math, Call::Pow10(mu.negated().minus(bias)))));
            i = i + 1;
        }
        ask(math, Call::Log10(d.max(lit(LEAST_DAMAGE))))
    } else {
        obs.y_time.minus(
            mean_log_life(ws.cfg.kind, p, obs.temp_k, obs.stress, &ws.scale).plus(bias),
        )
    }
}

/// The shrinkage of the first `k` free biases.
pub open spec fn penalty_of(cfg: FitConfig, raw: Seq<Real>, k: nat) -> Real
    decreases k,
{
    if k == 0 {
        lit(ZERO)
    } else {
        fadd(
            penalty_of(cfg, raw, (k - 1) as nat),
            fmul(
                lit(HALF),
                fsquare(fdiv(raw[n_base(cfg.kind) as int + k - 1], cfg.shrink_tau)),
            ),
        )
    }
}

pub fn neg_penalty<M: Fn(Call) -> Real>(ws: &Workspace, raw: &Vec<Real>, math: &M) -> (r: Real)
    requires
        ws.built(*math),
        raw@.len() == dimensions(*ws.cfg),
    ensures
        r == penalty_of(*ws.cfg, raw@, free_count(*ws.cfg, ws.cfg.heats@.len())),
{
    proof {
        lemma_dimensions(*ws.cfg);
    }
    let mut v: Real = lit(ZERO);
    let mut j: usize = 0;
    while j < ws.nfree_heats
        invariant
            ws.built(*math),
            ws.nfree_heats <= i32::MAX,
            raw@.len() == dimensions(*ws.cfg),
            j <= ws.nfree_heats,
            v == penalty_of(*ws.cfg, raw@, j as nat),
        decreases ws.nfree_heats - j,
    {
        let d: Real = raw[ws.nb + j];
        v = v.plus(lit(HALF).times(square_of(d.over(ws.cfg.shrink_tau))));
        j = j + 1;
    }
    v
}

/// What one observation adds to the negative log-likelihood.
#[derive(Clone, Copy, Debug)]
pub struct PerObs {
    pub g: Real,
    pub nll: Real,
}

/// The logarithm of the spread among the searched values.
pub open spec fn log_spread(cfg: FitConfig, raw: Seq<Real>) -> Real {
    raw[n_base(cfg.kind) as int + free_count(cfg, cfg.heats@.len())]
}

pub open spec fn per_obs<M: Fn(Call) -> Real>(math: M, cfg: FitConfig, raw: Seq<Real>, i: int) -> PerObs {
    let p = physical_of(math, cfg.kind, raw, hottest(cfg.observations@));
    let log_s = log_spread(cfg, raw);
    let s = fmax(answer(math, Call::Exp(log_s)), lit(LEAST_SPREAD));
    let o = cfg.observations@[i];
    let g = g_of(math, cfg, o, p, raw);
    let z = fdiv(g, s);
    PerObs {
        g,
        nll: match o.kind {
            ObsKind::Exact => fadd(fneg(norm_log_pdf_of(math, z)), log_s),
            ObsKind::Censored => fneg(norm_log_cdf_of(math, fneg(z))),
        },
    }
}

/// The penalty and what the first `k` observations add.
pub open spec fn total_of<M: Fn(Call) -> Real>(math: M, cfg: FitConfig, raw: Seq<Real>, k: nat) -> Real
    decreases k,
{
    if k == 0 {
        penalty_of(cfg, raw, free_count(cfg, cfg.heats@.len()))
    } else {
        fadd(total_of(math, cfg, raw, (k - 1) as nat), per_obs(math, cfg, raw, k - 1).nll)
    }
}

/// Whether the first `k` observations add finite numbers.
pub open spec fn all_finite<M: Fn(Call) -> Real>(math: M, cfg: FitConfig, raw: Seq<Real>, k: int) -> bool {
    forall|i: int| 0 <= i < k ==> (#[trigger] per_obs(math, cfg, raw, i)).nll.finite()
}

/// The penalised negative log-likelihood and its parts; infinite, without parts, where an
/// observation adds what is not finite.
pub open spec fn eval_of<M: Fn(Call) -> Real>(
    math: M,
    cfg: FitConfig,
    raw: Seq<Real>,
) -> (Real, Seq<PerObs>) {
    let n = cfg.observations@.len();
    if all_finite(math, cfg, raw, n as int) {
        (total_of(math, cfg, raw, n), Seq::new(n, |i: int| per_obs(math, cfg, raw, i)))
    } else {
        (lit(PLUS_INFINITY), Seq::empty())
    }
}

pub fn eval_all<M: Fn(Call) -> Real>(math: &M, ws: &Workspace, raw: &Vec<Real>) -> (r: (Real, Vec<PerObs>))
    requires
        is_math(*math),
        ws.built(*math),
        is_config(*ws.cfg),
        raw@.len() == dimensions(*ws.cfg),
    ensures
        (r.0, r.1@) == eval_of(*math, *ws.cfg, raw@),
{
    proof {
        lemma_dimensions(*ws.cfg);
    }
    let p: Vec<Real> = ws.phys_params(math, raw);
    let log_s: Real = raw[ws.sigma_index()];
    let s: Real = ask(math, Call::Exp(log_s)).max(lit(LEAST_SPREAD));
    let mut total: Real = neg_penalty(ws, raw, math);
    let mut rows: Vec<PerObs> = Vec::new();
    let mut i: usize = 0;
    while i < ws.cfg.observations.len()
        invariant
            is_math(*math),
            ws.built(*math),
            is_config(*ws.cfg),
            raw@.len() == dimensions(*ws.cfg),
            p@ == physical_of(*math, ws.cfg.kind, raw@, ws.temp_max_k),
            p@.len() == n_base(ws.cfg.kind),
            log_s == log_spread(*ws.cfg, raw@),
            s == fmax(answer(*math, Call::Exp(log_s)), lit(LEAST_SPREAD)),
            i <= ws.cfg.observations@.len(),
            total == total_of(*math, *ws.cfg, raw@, i as nat),
            all_finite(*math, *ws.cfg, raw@, i as int),
            rows@ == Seq::new(i as nat, |k: int| per_obs(*math, *ws.cfg, raw@, k)),
        decreases ws.cfg.observations@.len() - i,
    {
        let obs: &Obs = &ws.cfg.observations[i];
        let g: Real = obs_g(math, ws, obs, &p, raw);
        let z: Real = g.over(s);
        let nll: Real = match obs.kind {
            ObsKind::Exact => norm_log_pdf(math, z).negated().plus(log_s),
            ObsKind::Censored => norm_log_cdf(math, z.negated()).negated(),
        };
        proof {
            assert(per_obs(*math, *ws.cfg, raw@, i as int) == (PerObs { g, nll }));
        }
        if !nll.is_finite() {
            return (lit(PLUS_INFINITY), Vec::new());
        }
        total = total.plus(nll);
        rows.push(PerObs { g, nll });
        proof {
            assert(rows@ =~= Seq::new((i + 1) as nat, |k: int| per_obs(*math, *ws.cfg, raw@, k)));
        }
        i = i + 1;
    }
    (total, rows)
}

// ---- laws of the statistic ----

/// Whether the segments last, and the curve has a finite life for each.
pub open spec fn is_lasting(kind: ModelKind, segs: Seq<Seg>, p: Seq<Real>, scale: Scale) -> bool {
    forall|i: int|
        0 <= i < segs.len() ==> flt(lit(ZERO), (#[trigger] segs[i]).hours) && segs[i].hours.finite()
            && mean_log_life_of(kind, p, segs[i].temp_k, segs[i].stress, scale).finite()
}

proof fn lemma_damage_falls<M: Fn(Call) -> Real>(
    math: M,
    kind: ModelKind,
    segs: Seq<Seg>,
    p: Seq<Real>,
    scale: Scale,
    b: Real,
    c: Real,
    k: nat,
)
    requires
        is_faithful(math),
        is_lasting(kind, segs, p, scale),
        fle(b, c),
        k <= segs.len(),
    ensures
        fle(lit(ZERO), damage_of(math, kind, segs, p, scale, c, k)),
        fle(
            damage_of(math, kind, segs, p, scale, c, k),
            damage_of(math, kind, segs, p, scale, b, k),
        ),
    decreases k,
{
    if k > 0 {
        lemma_damage_falls(math, kind, segs, p, scale, b, c, (k - 1) as nat);
        let s = segs[k - 1];
        let mu = mean_log_life_of(kind, p, s.temp_k, s.stress, scale);
        law_difference_antitone(b, c, fneg(mu));
        let x = answer(math, Call::Pow10(fsub(fneg(mu), b)));
        let y = answer(math, Call::Pow10(fsub(fneg(mu), c)));
        law_product_monotone(y, x, s.hours);
        law_commutes(x, s.hours);
        law_commutes(y, s.hours);
        law_sums_ordered(
            damage_of(math, kind, segs, p, scale, c, (k - 1) as nat),
            damage_of(math, kind, segs, p, scale, b, (k - 1) as nat),
            fmul(s.hours, y),
            fmul(s.hours, x),
        );
    }
}

/// A higher bias of its heat never raises the statistic of an observation, of constant load
/// or variable: a heat that lives longer has used up less of its life.
pub proof fn law_bias_lowers_statistic<M: Fn(Call) -> Real>(
    math: M,
    cfg: FitConfig,
    o: Obs,
    p: Seq<Real>,
    low: Seq<Real>,
    high: Seq<Real>,
)
    requires
        is_faithful(math),
        fle(
            bias_of(cfg, heat_at(cfg, o.heat@), low),
            bias_of(cfg, heat_at(cfg, o.heat@), high),
        ),
        o.variable ==> is_lasting(
            cfg.kind,
            o.segments@,
            p,
            scale_of(math, cfg.observations@),
        ),
        !o.variable ==> o.y_time.finite() && mean_log_life_of(
            cfg.kind,
            p,
            o.temp_k,
            o.stress,
            scale_of(math, cfg.observations@),
        ).finite(),
    ensures
        fle(g_of(math, cfg, o, p, high), g_of(math, cfg, o, p, low)),
{
    let b = bias_of(cfg, heat_at(cfg, o.heat@), low);
    let c = bias_of(cfg, heat_at(cfg, o.heat@), high);
    let scale = scale_of(math, cfg.observations@);
    if o.variable {
        lemma_damage_falls(math, cfg.kind, o.segments@, p, scale, b, c, o.segments@.len());
    } else {
        let mu = mean_log_life_of(cfg.kind, p, o.temp_k, o.stress, scale);
        law_sum_monotone(b, c, mu);
        law_commutes(b, mu);
        law_commutes(c, mu);
        law_difference_antitone(fadd(mu, b), fadd(mu, c), o.y_time);
    }
}

/// One more segment never lowers the statistic: damage only accumulates.
pub proof fn law_damage_accumulates<M: Fn(Call) -> Real>(
    math: M,
    cfg: FitConfig,
    o: Obs,
    more: Obs,
    s: Seg,
    p: Seq<Real>,
    raw: Seq<Real>,
)
    requires
        is_faithful(math),
        o.variable && more.variable,
        more.heat@ == o.heat@,
        more.segments@ == o.segments@.push(s),
        is_lasting(cfg.kind, more.segments@, p, scale_of(math, cfg.observations@)),
        !bias_of(cfg, heat_at(cfg, o.heat@), raw).nan(),
    ensures
        fle(g_of(math, cfg, o, p, raw), g_of(math, cfg, more, p, raw)),
{
    let b = bias_of(cfg, heat_at(cfg, o.heat@), raw);
    let scale = scale_of(math, cfg.observations@);
    let n = o.segments@.len();
    let kind = cfg.kind;
    assert forall|i: int| 0 <= i < n implies #[trigger] o.segments@[i] == more.segments@[i] by {}
    assert(is_lasting(kind, o.segments@, p, scale)) by {
        assert forall|i: int| 0 <= i < n implies flt(lit(ZERO), (#[trigger] o.segments@[i]).hours)
            && o.segments@[i].hours.finite() && mean_log_life_of(
            kind,
            p,
            o.segments@[i].temp_k,
            o.segments@[i].stress,
            scale,
        ).finite() by {
            assert(o.segments@[i] == more.segments@[i]);
        }
    }
    lemma_same_damage(math, kind, o.segments@, more.segments@, p, scale, b, n);
    lemma_damage_falls(math, kind, o.segments@, p, scale, b, b, n);
    lemma_damage_falls(math, kind, more.segments@, p, scale, b, b, (n + 1) as nat);
    let mu = mean_log_life_of(kind, p, s.temp_k, s.stress, scale);
    assert(more.segments@[n as int] == s);
    law_difference_antitone(b, b, fneg(mu));
    let x = answer(math, Call::Pow10(fsub(fneg(mu), b)));
    law_product_monotone(x, x, s.hours);
    law_commutes(x, s.hours);
    law_sum_grows(
        damage_of(math, kind, o.segments@, p, scale, b, n),
        fmul(s.hours, x),
    );
}

proof fn lemma_same_damage<M: Fn(Call) -> Real>(
    math: M,
    kind: ModelKind,
    a: Seq<Seg>,
    b: Seq<Seg>,
    p: Seq<Real>,
    scale: Scale,
    bias: Real,
    k: nat,
)
    requires
        k <= a.len() <= b.len(),
        forall|i: int| 0 <= i < a.len() ==> #[trigger] a[i] == b[i],
    ensures
        damage_of(math, kind, a, p, scale, bias, k) == damage_of(
            math,
            kind,
            b,
            p,
            scale,
            bias,
            k,
        ),
    decreases k,
{
    if k > 0 {
        lemma_same_damage(math, kind, a, b, p, scale, bias, (k - 1) as nat);
        assert(a[k - 1] == b[k - 1]);
    }
}

/// The statistic of a constant load is its log10 life less the mean and the bias, but for two
/// roundings.
pub proof fn lemma_constant_statistic(y: Real, mu: Real, bias: Real)
    requires
        y.finite(),
        mu.finite(),
        bias.finite(),
        fadd(mu, bias).finite(),
        fsub(y, fadd(mu, bias)).finite(),
    ensures
        size_of(
            fsub(y, fadd(mu, bias)).value() - (y.value() - mu.value() - bias.value()),
        ) * (2 * BINADE) <= size_of(y.value() - fadd(mu, bias).value()) + size_of(
            mu.value() + bias.value(),
        ),
{
    let s = fadd(mu, bias);
    law_sum_error(mu, bias);
    law_difference_error(y, s);
    let a = fsub(y, s).value() - (y.value() - s.value());
    let b = s.value() - (mu.value() + bias.value());
    lemma_sizes(a, -b, 2 * BINADE);
    assert(fsub(y, s).value() - (y.value() - mu.value() - bias.value()) == a + (-b));
}

/// The size of a sum is at most the sum of the sizes, and so are its multiples.
proof fn lemma_sizes(a: int, b: int, k: int)
    requires
        0 <= k,
    ensures
        size_of(a + b) * k <= size_of(a) * k + size_of(b) * k,
{
    let p = size_of(a);
    let q = size_of(b);
    let s = size_of(a + b);
    assert(s * k <= p * k + q * k) by (nonlinear_arith)
        requires
            s <= p + q,
            0 <= k,
    ;
}

/// A bias that is raised lowers the statistic of a constant load by as much, but for the
/// roundings.
pub proof fn law_bias_shifts_constant<M: Fn(Call) -> Real>(
    math: M,
    cfg: FitConfig,
    o: Obs,
    p: Seq<Real>,
    low: Seq<Real>,
    high: Seq<Real>,
)
    requires
        !o.variable,
        ({
            let mu = mean_log_life_of(
                cfg.kind,
                p,
                o.temp_k,
                o.stress,
                scale_of(math, cfg.observations@),
            );
            let b = bias_of(cfg, heat_at(cfg, o.heat@), low);
            let c = bias_of(cfg, heat_at(cfg, o.heat@), high);
            &&& o.y_time.finite() && mu.finite() && b.finite() && c.finite()
            &&& fadd(mu, b).finite() && fadd(mu, c).finite()
            &&& g_of(math, cfg, o, p, low).finite() && g_of(math, cfg, o, p, high).finite()
        }),
    ensures
        ({
            let mu = mean_log_life_of(
                cfg.kind,
                p,
                o.temp_k,
                o.stress,
                scale_of(math, cfg.observations@),
            );
            let b = bias_of(cfg, heat_at(cfg, o.heat@), low);
            let c = bias_of(cfg, heat_at(cfg, o.heat@), high);
            let fall = g_of(math, cfg, o, p, low).value() - g_of(math, cfg, o, p, high).value();
            size_of(fall - (c.value() - b.value())) * (2 * BINADE) <= size_of(
                o.y_time.value() - fadd(mu, b).value(),
            ) + size_of(mu.value() + b.value()) + size_of(
                o.y_time.value() - fadd(mu, c).value(),
            ) + size_of(mu.value() + c.value())
        }),
{
    let mu = mean_log_life_of(cfg.kind, p, o.temp_k, o.stress, scale_of(math, cfg.observations@));
    let b = bias_of(cfg, heat_at(cfg, o.heat@), low);
    let c = bias_of(cfg, heat_at(cfg, o.heat@), high);
    let y = o.y_time.value();
    lemma_constant_statistic(o.y_time, mu, b);
    lemma_constant_statistic(o.y_time, mu, c);
    let g = g_of(math, cfg, o, p, low).value();
    let h = g_of(math, cfg, o, p, high).value();
    let e = g - (y - mu.value() - b.value());
    let f = h - (y - mu.value() - c.value());
    lemma_sizes(e, -f, 2 * BINADE);
    assert(g - h - (c.value() - b.value()) == e + (-f));
}

/// Whether the logarithm of the damage of `hours` at the power `e` of ten is the sum of their
/// logarithms, within `slack` quanta.
pub open spec fn log_is_sum<M: Fn(Call) -> Real>(math: M, hours: Real, e: Real, slack: int) -> bool {
    let d = fmul(hours, answer(math, Call::Pow10(e)));
    &&& fle(lit(LEAST_DAMAGE), d)
    &&& answer(math, Call::Log10(d)).finite()
    &&& answer(math, Call::Log10(hours)).finite()
    &&& size_of(
        answer(math, Call::Log10(d)).value() - (answer(math, Call::Log10(hours)).value()
            + e.value()),
    ) <= slack
}

proof fn lemma_one_segment<M: Fn(Call) -> Real>(
    math: M,
    cfg: FitConfig,
    v: Obs,
    p: Seq<Real>,
    raw: Seq<Real>,
)
    requires
        v.variable,
        v.segments@.len() == 1,
        ({
            let s = v.segments@[0];
            let bias = bias_of(cfg, heat_at(cfg, v.heat@), raw);
            let scale = scale_of(math, cfg.observations@);
            let mu = mean_log_life_of(cfg.kind, p, s.temp_k, s.stress, scale);
            fle(
                lit(LEAST_DAMAGE),
                fmul(s.hours, answer(math, Call::Pow10(fsub(fneg(mu), bias)))),
            )
        }),
    ensures
        ({
            let s = v.segments@[0];
            let bias = bias_of(cfg, heat_at(cfg, v.heat@), raw);
            let scale = scale_of(math, cfg.observations@);
            let mu = mean_log_life_of(cfg.kind, p, s.temp_k, s.stress, scale);
            g_of(math, cfg, v, p, raw) == answer(
                math,
                Call::Log10(fmul(s.hours, answer(math, Call::Pow10(fsub(fneg(mu), bias))))),
            )
        }),
{
    let s = v.segments@[0];
    let bias = bias_of(cfg, heat_at(cfg, v.heat@), raw);
    let scale = scale_of(math, cfg.observations@);
    let mu = mean_log_life_of(cfg.kind, p, s.temp_k, s.stress, scale);
    let d = fmul(s.hours, answer(math, Call::Pow10(fsub(fneg(mu), bias))));
    reveal_with_fuel(damage_of, 2);
    assert(damage_of(math, cfg.kind, v.segments@, p, scale, bias, 1) == fadd(lit(ZERO), d));
    law_zero_added(d);
}

/// A variable load of one segment has the statistic of the constant load that it is, but for
/// one rounding and what the logarithm of the damage is off from the sum of the logarithms
/// of its factors.
pub proof fn law_one_segment_is_constant<M: Fn(Call) -> Real>(
    math: M,
    cfg: FitConfig,
    v: Obs,
    c: Obs,
    p: Seq<Real>,
    raw: Seq<Real>,
    slack: int,
)
    requires
        v.variable && !c.variable,
        v.heat@ == c.heat@,
        v.segments@.len() == 1,
        v.segments@[0].temp_k == c.temp_k,
        v.segments@[0].stress == c.stress,
        c.y_time == answer(math, Call::Log10(v.segments@[0].hours)),
        ({
            let bias = bias_of(cfg, heat_at(cfg, c.heat@), raw);
            let scale = scale_of(math, cfg.observations@);
            let mu = mean_log_life_of(cfg.kind, p, c.temp_k, c.stress, scale);
            &&& mu.finite() && bias.finite() && fadd(mu, bias).finite()
            &&& g_of(math, cfg, c, p, raw).finite()
            &&& log_is_sum(math, v.segments@[0].hours, fsub(fneg(mu), bias), slack)
        }),
    ensures
        ({
            let bias = bias_of(cfg, heat_at(cfg, c.heat@), raw);
            let scale = scale_of(math, cfg.observations@);
            let mu = mean_log_life_of(cfg.kind, p, c.temp_k, c.stress, scale);
            size_of(
                g_of(math, cfg, v, p, raw).value() - g_of(math, cfg, c, p, raw).value(),
            ) * (2 * BINADE) <= slack * (2 * BINADE) + size_of(
                c.y_time.value() - fadd(mu, bias).value(),
            )
        }),
{
    let bias = bias_of(cfg, heat_at(cfg, c.heat@), raw);
    let scale = scale_of(math, cfg.observations@);
    let mu = mean_log_life_of(cfg.kind, p, c.temp_k, c.stress, scale);
    let e = fsub(fneg(mu), bias);
    let s = fadd(mu, bias);
    lemma_one_segment(math, cfg, v, p, raw);
    law_signs(mu, bias);
    assert(mag(0) == 0);
    assert(e.value() == -s.value());
    law_difference_error(c.y_time, s);
    let g = g_of(math, cfg, v, p, raw).value();
    let h = g_of(math, cfg, c, p, raw).value();
    let a = g - (c.y_time.value() + e.value());
    let b = h - (c.y_time.value() - s.value());
    lemma_sizes(a, -b, 2 * BINADE);
    assert(g - h == a + (-b));
    let x = size_of(a);
    assert(x * (2 * BINADE) <= slack * (2 * BINADE)) by (nonlinear_arith)
        requires
            x <= slack,
    ;
}

/// A bias that is raised lowers the statistic of a load of one segment by as much, but for
/// the roundings and what the logarithms of the damages are off.
pub proof fn law_bias_shifts_segment<M: Fn(Call) -> Real>(
    math: M,
    cfg: FitConfig,
    v: Obs,
    p: Seq<Real>,
    low: Seq<Real>,
    high: Seq<Real>,
    slack: int,
)
    requires
        v.variable,
        v.segments@.len() == 1,
        ({
            let s = v.segments@[0];
            let scale = scale_of(math, cfg.observations@);
            let mu = mean_log_life_of(cfg.kind, p, s.temp_k, s.stress, scale);
            let b = bias_of(cfg, heat_at(cfg, v.heat@), low);
            let c = bias_of(cfg, heat_at(cfg, v.heat@), high);
            &&& mu.finite() && b.finite() && c.finite()
            &&& fadd(mu, b).finite() && fadd(mu, c).finite()
            &&& log_is_sum(math, s.hours, fsub(fneg(mu), b), slack)
            &&& log_is_sum(math, s.hours, fsub(fneg(mu), c), slack)
        }),
    ensures
        ({
            let s = v.segments@[0];
            let scale = scale_of(math, cfg.observations@);
            let mu = mean_log_life_of(cfg.kind, p, s.temp_k, s.stress, scale);
            let b = bias_of(cfg, heat_at(cfg, v.heat@), low);
            let c = bias_of(cfg, heat_at(cfg, v.heat@), high);
            let fall = g_of(math, cfg, v, p, low).value() - g_of(math, cfg, v, p, high).value();
            size_of(fall - (c.value() - b.value())) * (2 * BINADE) <= 2 * slack * (2 * BINADE)
                + size_of(mu.value() + b.value()) + size_of(mu.value() + c.value())
        }),
{
    let s = v.segments@[0];
    let scale = scale_of(math, cfg.observations@);
    let mu = mean_log_life_of(cfg.kind, p, s.temp_k, s.stress, scale);
    let b = bias_of(cfg, heat_at(cfg, v.heat@), low);
    let c = bias_of(cfg, heat_at(cfg, v.heat@), high);
    lemma_one_segment(math, cfg, v, p, low);
    lemma_one_segment(math, cfg, v, p, high);
    law_signs(mu, b);
    law_signs(mu, c);
    assert(mag(0) == 0);
    law_sum_error(mu, b);
    law_sum_error(mu, c);
    let y = answer(math, Call::Log10(s.hours)).value();
    let d = fsub(fneg(mu), b).value();
    let e = fsub(fneg(mu), c).value();
    assert(d == -fadd(mu, b).value());
    assert(e == -fadd(mu, c).value());
    let g = g_of(math, cfg, v, p, low).value();
    let h = g_of(math, cfg, v, p, high).value();
    let k = 2 * BINADE;
    let x1 = g - (y + d);
    let x2 = h - (y + e);
    let x3 = fadd(mu, b).value() - (mu.value() + b.value());
    let x4 = fadd(mu, c).value() - (mu.value() + c.value());
    assert(g - h - (c.value() - b.value()) == x1 + (-x2) + (-x3) + x4);
    lemma_sizes(x1 + (-x2) + (-x3), x4, k);
    lemma_sizes(x1 + (-x2), -x3, k);
    lemma_sizes(x1, -x2, k);
    let p1 = size_of(x1);
    let p2 = size_of(x2);
    assert(p1 * k <= slack * k && p2 * k <= slack * k) by (nonlinear_arith)
        requires
            p1 <= slack,
            p2 <= slack,
            0 <= k,
    ;
    assert(2 * slack * k == slack * k + slack * k) by (nonlinear_arith);
}

/// A segment that is cut in halves does the damage that it did whole.
pub proof fn law_cut_in_halves<M: Fn(Call) -> Real>(
    math: M,
    cfg: FitConfig,
    whole: Obs,
    cut: Obs,
    p: Seq<Real>,
    raw: Seq<Real>,
)
    requires
        whole.variable && cut.variable,
        whole.heat@ == cut.heat@,
        whole.segments@.len() == 1,
        cut.segments@.len() == 2,
        ({
            let s = whole.segments@[0];
            let half = Seg { hours: fmul(s.hours, lit(HALF)), ..s };
            let bias = bias_of(cfg, heat_at(cfg, whole.heat@), raw);
            let mu = mean_log_life_of(
                cfg.kind,
                p,
                s.temp_k,
                s.stress,
                scale_of(math, cfg.observations@),
            );
            let x = answer(math, Call::Pow10(fsub(fneg(mu), bias)));
            &&& cut.segments@[0] == half && cut.segments@[1] == half
            &&& s.hours.finite() && s.hours.size() >= 2 * BINADE
            &&& x.finite()
            &&& fle(lit(LEAST_DAMAGE), fmul(s.hours, x)) && fmul(s.hours, x).finite()
        }),
    ensures
        g_of(math, cfg, cut, p, raw) == g_of(math, cfg, whole, p, raw),
{
    let s = whole.segments@[0];
    let bias = bias_of(cfg, heat_at(cfg, whole.heat@), raw);
    let scale = scale_of(math, cfg.observations@);
    let mu = mean_log_life_of(cfg.kind, p, s.temp_k, s.stress, scale);
    let x = answer(math, Call::Pow10(fsub(fneg(mu), bias)));
    let w = fmul(s.hours, x);
    let part = fmul(fmul(s.hours, lit(HALF)), x);
    law_halves_add_up(s.hours, x);
    law_zero_added(w);
    law_zero_added(part);
    reveal_with_fuel(damage_of, 3);
    assert(damage_of(math, cfg.kind, whole.segments@, p, scale, bias, 1) == fadd(lit(ZERO), w));
    assert(damage_of(math, cfg.kind, cut.segments@, p, scale, bias, 1) == fadd(lit(ZERO), part));
    assert(damage_of(math, cfg.kind, cut.segments@, p, scale, bias, 2) == fadd(
        fadd(lit(ZERO), part),
        part,
    ));
}

} // verus!
