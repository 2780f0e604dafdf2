//! Maximum-likelihood fits that take censoring into account.
//!
//! With `y` the log10 of a life and `mu` its mean, the statistic of a sample is
//! `g = y - mu` under a constant load and the log10 of the cumulative damage
//! `sum of h_i / 10^mu_i` under a variable one. A fractured sample has `g` normal about
//! zero; of a censored one only `g < 0` is known, and it is never taken to have fractured
//! when it was stopped. One heat is the reference, whose bias is zero; the others' biases
//! are free under a shrinkage penalty, or fixed by the user.
use vstd::prelude::*;
use crate::models::{ModelKind, Scale};
use crate::number::Real;

pub mod engine;
pub mod forecast;
pub mod likelihood;
pub mod load;
pub mod predict;
pub mod seeds;
pub mod select;
pub mod start;
pub mod variance;
pub mod workspace;

verus! {

/// A stretch of a variable load.
#[derive(Clone, Copy, Debug)]
pub struct Seg {
    pub temp_k: Real,
    pub stress: Real,
    pub hours: Real,
}

#[derive(Clone, Copy, Debug, PartialEq, Eq, Structural)]
pub enum ObsKind {
    Exact,
    Censored,
}

/// What a fit reads of a sample. Under a variable load the temperature and the stress are
/// those of the last segment.
#[derive(Clone, Debug)]
pub struct Obs {
    pub sample_id: String,
    pub heat: String,
    pub kind: ObsKind,
    pub temp_k: Real,
    pub stress: Real,
    pub y_time: Real,
    pub segments: Vec<Seg>,
    pub variable: bool,
}

#[derive(Clone, Debug)]
pub struct FixedHeat {
    pub heat: String,
    pub bias: Real,
}

#[derive(Debug)]
pub struct FitConfig {
    pub kind: ModelKind,
    pub observations: Vec<Obs>,
    /// Every heat, the reference among them.
    pub heats: Vec<String>,
    pub reference_heat: String,
    /// The biases that the user has fixed.
    pub fixed_heats: Vec<FixedHeat>,
    /// The standard deviation of the shrinkage, in dex.
    pub shrink_tau: Real,
    pub allow_temp_k: (Real, Real),
    pub allow_stress: (Real, Real),
}

#[derive(Clone, Debug)]
pub struct ParamOut {
    pub name: String,
    pub value: Real,
    pub se: Option<Real>,
    pub fixed: bool,
    pub constraint: String,
}

#[derive(Clone, Debug)]
pub struct ResidualOut {
    pub sample_id: String,
    pub heat: String,
    pub variable: bool,
    /// exact | censored
    pub obs: String,
    pub fitted_log10: Real,
    pub residual_dex: Option<Real>,
    pub nll_contribution: Real,
}

#[derive(Clone, Debug)]
pub struct FitResult {
    pub model: String,
    pub converged: bool,
    pub nll: Real,
    pub log_likelihood: Real,
    pub aic: Real,
    pub bic: Real,
    pub sigma_dex: Real,
    pub params: Vec<ParamOut>,
    pub heat_bias: Vec<ParamOut>,
    pub residuals: Vec<ResidualOut>,
    pub included: Vec<String>,
    pub scale: Scale,
    pub internal: Internal,
}

#[derive(Clone, Debug)]
pub struct Internal {
    pub raw: Vec<Real>,
    pub cov_raw: Vec<Vec<Real>>,
    /// For each heat its place among the free biases, or -1.
    pub heat_index: Vec<(String, i32)>,
    pub temp_max_k: Real,
}

#[derive(Clone, Debug)]
pub struct PredictionOut {
    pub temp_k: Real,
    pub stress_mpa: Real,
    pub mean_log10_h: Real,
    pub median_h: Real,
    pub pi_low_h: Real,
    pub pi_high_h: Real,
    pub pi_level: Real,
    pub inside_envelope: bool,
    pub outside_allowed: bool,
    pub risk: String,
    pub boundary_active: Vec<String>,
    pub normalized_distance: Real,
    pub extrapolation_leverage: Real,
    pub warning: Option<String>,
}

/// The temperatures and stresses that the observations span.
#[derive(Clone, Copy, Debug)]
pub struct Envelope {
    pub temp_min_k: Real,
    pub temp_max_k: Real,
    pub stress_min_mpa: Real,
    pub stress_max_mpa: Real,
}

pub struct FitOutput {
    pub result: FitResult,
    pub ws_scale: Scale,
    pub raw: Vec<Real>,
    pub cov: Vec<Vec<Real>>,
    pub temp_max_k: Real,
    pub heat_index: Vec<(String, i32)>,
    pub n_obs: usize,
}

} // verus!
