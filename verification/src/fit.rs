//! Fits of the shared curve with an offset for each heat, the report on them, and the
//! predictions that a request asks for.
use vstd::prelude::*;
use crate::number::{fle, flt, lit, Real};
use crate::number::consts::ONE;

pub mod account;
pub mod covariance;
pub mod criterion;
pub mod damage;
pub mod decimals;
pub mod errors;
pub mod forecast;
pub mod hat;
pub mod master;
pub mod problem;
pub mod report;
pub mod run;
pub mod select;
pub mod target;
pub mod verdict;
pub mod weight;

verus! {

/// A point at which a life is asked for.
#[derive(Clone, Debug)]
pub struct TargetIn {
    pub temp_value: Real,
    pub temp_unit: Option<String>,
    pub stress_mpa: Real,
    pub heat: Option<String>,
}

#[derive(Clone, Debug)]
pub struct FitRequest {
    /// LM | CX
    pub model: String,
    pub criterion: String,
    pub damage_model: bool,
    pub shrink: Real,
    pub min_temp_c: Option<Real>,
    pub max_temp_c: Option<Real>,
    pub min_stress_mpa: Option<Real>,
    pub max_stress_mpa: Option<Real>,
    pub targets: Vec<TargetIn>,
    pub name: Option<String>,
}

/// Whether two bounds, where both are given, are finite and in order.
pub open spec fn in_order(low: Option<Real>, high: Option<Real>) -> bool {
    match (low, high) {
        (Some(a), Some(b)) => a.finite() && b.finite() && !fle(b, a),
        _ => true,
    }
}

fn is_in_order(low: Option<Real>, high: Option<Real>) -> (r: bool)
    ensures
        r == in_order(low, high),
{
    match (low, high) {
        (Some(a), Some(b)) => a.is_finite() && b.is_finite() && !b.le(a),
        _ => true,
    }
}

impl FitRequest {
    /// Whether the bounds of the request can be met.
    pub open spec fn bounds_hold(self) -> bool {
        in_order(self.min_temp_c, self.max_temp_c) && in_order(
            self.min_stress_mpa,
            self.max_stress_mpa,
        )
    }

    pub fn bounds_ok(&self) -> (r: bool)
        ensures
            r == self.bounds_hold(),
    {
        is_in_order(self.min_temp_c, self.max_temp_c) && is_in_order(
            self.min_stress_mpa,
            self.max_stress_mpa,
        )
    }
}

/// The shrinkage of a request that names none.
pub fn default_shrink() -> (r: Real)
    ensures
        r == lit(ONE),
{
    lit(ONE)
}

/// Whether a specimen takes part, and why not.
#[derive(Clone, Debug)]
pub struct InclusionRow {
    pub specimen_id: String,
    pub heat: String,
    pub temp_c: Real,
    pub stress_mpa: Option<Real>,
    pub outcome: String,
    pub variable: bool,
    pub included: bool,
    pub reason: String,
}

#[derive(Clone, Debug)]
pub struct ResidualRow {
    pub specimen_id: String,
    pub heat: String,
    pub heat_idx: usize,
    pub temp_c: Real,
    pub x: Real,
    pub variable: bool,
    pub censored: bool,
    pub observed: String,
    pub predicted_log10_h: Real,
    pub residual: Option<Real>,
    pub std_residual: Option<Real>,
    pub contribution: Real,
    pub censor_tail_probability: Option<Real>,
    pub cumulative_damage: Option<Real>,
}

/// The range of the specimens that take part.
#[derive(Clone, Debug)]
pub struct Envelope {
    pub min_temp_c: Real,
    pub max_temp_c: Real,
    pub min_stress_mpa: Real,
    pub max_stress_mpa: Real,
    pub heats: Vec<String>,
    pub n_temps: usize,
}

/// A target as it is reported, rounded to two decimals.
#[derive(Clone, Copy, Debug)]
pub struct PredictionInput {
    pub temp_c: Real,
    pub temp_kelvin: Real,
    pub stress_mpa: Real,
}

#[derive(Clone, Debug)]
pub struct Prediction {
    pub input: PredictionInput,
    pub heat: String,
    pub within_envelope: bool,
    pub distance_temp_c: Real,
    pub distance_stress_mpa: Real,
    pub normalized_distance: Real,
    pub allowed: bool,
    pub blocked_by: Option<String>,
    pub risk: String,
    pub boundary_active: Vec<String>,
    pub median_h: Real,
    pub pi_low_h: Real,
    pub pi_high_h: Real,
    pub leverage: Real,
}

#[derive(Clone, Debug)]
pub struct ParamReport {
    pub name: String,
    pub value: Real,
    pub se: Option<Real>,
    pub note: String,
}

/// What a censored specimen adds to the likelihood.
#[derive(Clone, Debug)]
pub struct CensorEntry {
    pub specimen_id: String,
    pub meaning: String,
    pub log_likelihood: Real,
    pub survival_probability_at_stop: Option<Real>,
    pub cumulative_damage: Option<Real>,
}

#[derive(Clone, Debug)]
pub struct Censoring {
    pub n_censored: usize,
    pub entries: Vec<CensorEntry>,
}

#[derive(Clone, Debug)]
pub struct FitResult {
    pub model: String,
    pub criterion: String,
    pub damage_model: bool,
    pub params: Vec<ParamReport>,
    pub tau_log10h: Real,
    pub heat_offsets: Vec<ParamReport>,
    pub n_included: usize,
    pub n_ruptured: usize,
    pub n_censored: usize,
    pub n_variable: usize,
    pub inclusion: Vec<InclusionRow>,
    pub residuals: Vec<ResidualRow>,
    pub censoring: Censoring,
    pub envelope: Envelope,
    pub predictions: Vec<Prediction>,
    pub log_likelihood: Real,
    pub aic: Real,
    pub n_free_params: usize,
    pub shrink: Real,
    pub warnings: Vec<String>,
    pub leverage_cutoff: Real,
}

/// A request is taken just where each pair of bounds that it gives in full is finite and the
/// lower one is less than the upper.
pub proof fn law_bounds_in_order(req: FitRequest)
    ensures
        req.bounds_hold() <==> {
            &&& (req.min_temp_c is Some && req.max_temp_c is Some ==> {
                &&& req.min_temp_c->0.finite() && req.max_temp_c->0.finite()
                &&& flt(req.min_temp_c->0, req.max_temp_c->0)
            })
            &&& (req.min_stress_mpa is Some && req.max_stress_mpa is Some ==> {
                &&& req.min_stress_mpa->0.finite() && req.max_stress_mpa->0.finite()
                &&& flt(req.min_stress_mpa->0, req.max_stress_mpa->0)
            })
        },
{
}

} // verus!
