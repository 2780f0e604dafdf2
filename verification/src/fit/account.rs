//! A report accounts for every specimen: who takes part, how many of which kind, what box
//! they span, and what is said of those that were stopped.
use vstd::prelude::*;
use crate::fit::{CensorEntry, FitRequest, FitResult, ResidualRow};
use crate::fit::problem::{row_is, Plan};
use crate::fit::report::{all_segments, censored_rows, entry_is, outcomes, rounded_at,
    segment_stresses, segment_temps, variables, MILLION};
use crate::fit::run::{found, plan_of, result_is};
use crate::fit::select::{chosen, inclusion_is, law_chosen_are_included, left_out};
use crate::host::{Call, Print};
use crate::ingest::ICE_POINT;
use crate::linalg::{greatest, law_extremes, least};
use crate::number::{fle, lit, Real};
use crate::number::arith::fsub;
use crate::specimen::Specimen;

verus! {

/// The specimens that a request fits.
pub open spec fn fitted_of(all: Seq<Specimen>, req: FitRequest) -> Seq<Specimen> {
    chosen(all, req.criterion@, req.damage_model, all.len())
}

/// A specimen takes part, and is said to, just where it is of the criterion that is asked for
/// and its load is constant, or a damage model is on; a row stands for each that does.
pub proof fn law_every_specimen_is_accounted_for<M: Fn(Call) -> Real, S: Fn(Print) -> String>(
    math: M,
    show: S,
    all: Seq<Specimen>,
    req: FitRequest,
    r: FitResult,
    i: int,
)
    requires
        result_is(math, show, all, req, r),
        0 <= i < all.len(),
    ensures
        ({
            let s = all[i];
            let takes_part = s.criterion@ == req.criterion@ && (!s.variable || req.damage_model);
            &&& r.inclusion@[i].specimen_id@ == s.specimen_id@
            &&& r.inclusion@[i].included <==> takes_part
            &&& takes_part ==> exists|n: int|
                0 <= n < r.residuals@.len() && fitted_of(all, req)[n] == s && (
                #[trigger] r.residuals@[n]).specimen_id@ == s.specimen_id@
        }),
{
    let s = all[i];
    assert(inclusion_is(s, req.criterion@, req.damage_model, r.inclusion@[i]));
    law_chosen_are_included(all, req.criterion@, req.damage_model, all.len(), i);
    let specs = fitted_of(all, req);
    if s.criterion@ == req.criterion@ && (!s.variable || req.damage_model) {
        assert(left_out(s, req.criterion@, req.damage_model) is None);
        let n = choose|n: int| 0 <= n < specs.len() && specs[n] == s;
        let plan = plan_of(req, specs);
        let u = found(math, plan, specs).0;
        assert(row_is(math, show, plan, u, specs[n], r.residuals@[n]));
    }
}

/// How many of the first `k` rows are of a kind.
pub open spec fn counted(rows: Seq<ResidualRow>, kind: spec_fn(ResidualRow) -> bool, k: nat) -> nat
    decreases k,
{
    if k == 0 {
        0
    } else {
        counted(rows, kind, (k - 1) as nat) + if kind(rows[k - 1]) {
            1nat
        } else {
            0nat
        }
    }
}

pub open spec fn stopped() -> spec_fn(ResidualRow) -> bool {
    |row: ResidualRow| row.censored
}

pub open spec fn of_variable_load() -> spec_fn(ResidualRow) -> bool {
    |row: ResidualRow| row.variable
}

proof fn lemma_counts<M: Fn(Call) -> Real, S: Fn(Print) -> String>(
    math: M,
    show: S,
    plan: Plan,
    specs: Seq<Specimen>,
    u: Seq<Real>,
    rows: Seq<ResidualRow>,
    k: nat,
)
    requires
        rows.len() == specs.len(),
        forall|i: int|
            0 <= i < specs.len() ==> row_is(math, show, plan, u, specs[i], #[trigger] rows[i]),
        k <= specs.len(),
    ensures
        outcomes(specs, "censored"@, k) == counted(rows, stopped(), k),
        variables(specs, k) == counted(rows, of_variable_load(), k),
        censored_rows(rows, k).len() == counted(rows, stopped(), k),
        (forall|i: int|
            0 <= i < specs.len() ==> (#[trigger] specs[i]).outcome@ == "censored"@
                || specs[i].outcome@ == "ruptured"@) ==> outcomes(specs, "ruptured"@, k)
            + outcomes(specs, "censored"@, k) == k,
    decreases k,
{
    if k > 0 {
        lemma_counts(math, show, plan, specs, u, rows, (k - 1) as nat);
        assert(row_is(math, show, plan, u, specs[k - 1], rows[k - 1]));
        reveal_strlit("censored");
        reveal_strlit("ruptured");
        assert("censored"@[0] != "ruptured"@[0]);
    }
}

/// The counts of a report are those of its rows; those that ruptured and those that were
/// stopped are all, where every specimen did one or the other.
pub proof fn law_counts_are_of_rows<M: Fn(Call) -> Real, S: Fn(Print) -> String>(
    math: M,
    show: S,
    all: Seq<Specimen>,
    req: FitRequest,
    r: FitResult,
)
    requires
        result_is(math, show, all, req, r),
    ensures
        r.n_included == r.residuals@.len(),
        r.n_censored == counted(r.residuals@, stopped(), r.residuals@.len()),
        r.n_variable == counted(r.residuals@, of_variable_load(), r.residuals@.len()),
        r.censoring.n_censored == r.n_censored,
        r.censoring.entries@.len() == r.n_censored,
        (forall|i: int|
            0 <= i < fitted_of(all, req).len() ==> (#[trigger] fitted_of(all, req)[i]).outcome@
                == "censored"@ || fitted_of(all, req)[i].outcome@ == "ruptured"@)
            ==> r.n_ruptured + r.n_censored == r.n_included,
{
    let specs = fitted_of(all, req);
    let plan = plan_of(req, specs);
    let u = found(math, plan, specs).0;
    lemma_counts(math, show, plan, specs, u, r.residuals@, specs.len());
}

/// Whether a row is among the first `k` and of a stopped specimen.
spec fn is_stopped_row(rows: Seq<ResidualRow>, k: nat, row: ResidualRow) -> bool {
    exists|n: int| 0 <= n < k && #[trigger] rows[n] == row && row.censored
}

proof fn lemma_censored_rows(rows: Seq<ResidualRow>, k: nat)
    requires
        k <= rows.len(),
    ensures
        forall|i: int|
            0 <= i < censored_rows(rows, k).len() ==> is_stopped_row(
                rows,
                k,
                #[trigger] censored_rows(rows, k)[i],
            ),
        forall|n: int|
            0 <= n < k && (#[trigger] rows[n]).censored ==> censored_rows(rows, k).contains(
                rows[n],
            ),
    decreases k,
{
    if k > 0 {
        let m = (k - 1) as nat;
        lemma_censored_rows(rows, m);
        let before = censored_rows(rows, m);
        let after = censored_rows(rows, k);
        assert forall|i: int| 0 <= i < after.len() implies is_stopped_row(
            rows,
            k,
            #[trigger] after[i],
        ) by {
            if i < before.len() {
                assert(after[i] == before[i]);
                assert(is_stopped_row(rows, m, before[i]));
                let n = choose|n: int|
                    0 <= n < m && #[trigger] rows[n] == before[i] && before[i].censored;
                assert(rows[n] == after[i]);
            } else {
                assert(rows[k - 1] == after[i]);
            }
        }
        assert forall|n: int| 0 <= n < k && (#[trigger] rows[n]).censored implies after.contains(
            rows[n],
        ) by {
            if n < m {
                let i = choose|i: int| 0 <= i < before.len() && before[i] == rows[n];
                assert(after[i] == rows[n]);
            } else {
                assert(after[after.len() - 1] == rows[n]);
            }
        }
    }
}

/// Whether an entry says of a stopped specimen what its row does.
pub open spec fn speaks_of(e: CensorEntry, row: ResidualRow) -> bool {
    &&& row.censored
    &&& e.specimen_id@ == row.specimen_id@
    &&& e.log_likelihood == rounded_at(row.contribution, lit(MILLION))
    &&& e.survival_probability_at_stop == row.censor_tail_probability
    &&& e.cumulative_damage == row.cumulative_damage
}

/// There is an entry for every specimen that was stopped, and for no other, and it says what
/// the row of the specimen says.
pub proof fn law_stopped_are_listed<M: Fn(Call) -> Real, S: Fn(Print) -> String>(
    math: M,
    show: S,
    all: Seq<Specimen>,
    req: FitRequest,
    r: FitResult,
)
    requires
        result_is(math, show, all, req, r),
    ensures
        forall|i: int|
            0 <= i < r.censoring.entries@.len() ==> exists|n: int|
                0 <= n < r.residuals@.len() && speaks_of(
                    #[trigger] r.censoring.entries@[i],
                    #[trigger] r.residuals@[n],
                ),
        forall|n: int|
            0 <= n < r.residuals@.len() && (#[trigger] r.residuals@[n]).censored ==> exists|
                i: int,
            |
                0 <= i < r.censoring.entries@.len() && speaks_of(
                    #[trigger] r.censoring.entries@[i],
                    r.residuals@[n],
                ),
{
    let rows = r.residuals@;
    let entries = r.censoring.entries@;
    let c = censored_rows(rows, rows.len());
    lemma_censored_rows(rows, rows.len());
    assert forall|i: int| 0 <= i < entries.len() implies exists|n: int|
        0 <= n < rows.len() && speaks_of(#[trigger] entries[i], #[trigger] rows[n]) by {
        assert(entry_is(c[i], entries[i]));
        assert(is_stopped_row(rows, rows.len(), c[i]));
        let n = choose|n: int| 0 <= n < rows.len() && #[trigger] rows[n] == c[i] && c[i].censored;
        assert(speaks_of(entries[i], rows[n]));
    }
    assert forall|n: int| 0 <= n < rows.len() && (#[trigger] rows[n]).censored implies exists|
        i: int,
    | 0 <= i < entries.len() && speaks_of(#[trigger] entries[i], rows[n]) by {
        let i = choose|i: int| 0 <= i < c.len() && c[i] == rows[n];
        assert(entry_is(c[i], entries[i]));
        assert(speaks_of(entries[i], rows[n]));
    }
}

proof fn lemma_all_segments(specs: Seq<Specimen>, k: nat, s: int, g: int)
    requires
        0 <= s < k <= specs.len(),
        0 <= g < specs[s].segments@.len(),
    ensures
        all_segments(specs, k).contains(specs[s].segments@[g]),
    decreases k,
{
    let before = all_segments(specs, (k - 1) as nat);
    let after = all_segments(specs, k);
    if s < k - 1 {
        lemma_all_segments(specs, (k - 1) as nat, s, g);
        let i = choose|i: int| 0 <= i < before.len() && before[i] == specs[s].segments@[g];
        assert(after[i] == specs[s].segments@[g]);
    } else {
        assert(after[before.len() + g] == specs[s].segments@[g]);
    }
}

/// The envelope of a report holds every segment of every specimen that takes part: none is
/// hotter or colder, and none more or less stressed, than it says.
pub proof fn law_envelope_holds_segments<M: Fn(Call) -> Real, S: Fn(Print) -> String>(
    math: M,
    show: S,
    all: Seq<Specimen>,
    req: FitRequest,
    r: FitResult,
    s: int,
    g: int,
)
    requires
        result_is(math, show, all, req, r),
        0 <= s < fitted_of(all, req).len(),
        0 <= g < fitted_of(all, req)[s].segments@.len(),
        forall|i: int|
            0 <= i < all_segments(fitted_of(all, req), fitted_of(all, req).len()).len() ==> !fsub(
                (#[trigger] all_segments(fitted_of(all, req), fitted_of(all, req).len())[i]).temp_kelvin,
                lit(ICE_POINT),
            ).nan() && !all_segments(fitted_of(all, req), fitted_of(all, req).len())[i].stress_mpa.nan(),
    ensures
        ({
            let seg = fitted_of(all, req)[s].segments@[g];
            let tc = fsub(seg.temp_kelvin, lit(ICE_POINT));
            let e = r.envelope;
            let segs = all_segments(fitted_of(all, req), fitted_of(all, req).len());
            &&& fle(e.min_temp_c, tc) && fle(tc, e.max_temp_c)
            &&& fle(e.min_stress_mpa, seg.stress_mpa) && fle(seg.stress_mpa, e.max_stress_mpa)
            &&& exists|i: int|
                0 <= i < segs.len() && fsub((#[trigger] segs[i]).temp_kelvin, lit(ICE_POINT))
                    == e.min_temp_c
            &&& exists|i: int|
                0 <= i < segs.len() && fsub((#[trigger] segs[i]).temp_kelvin, lit(ICE_POINT))
                    == e.max_temp_c
            &&& exists|i: int| 0 <= i < segs.len() && (#[trigger] segs[i]).stress_mpa
                == e.min_stress_mpa
            &&& exists|i: int| 0 <= i < segs.len() && (#[trigger] segs[i]).stress_mpa
                == e.max_stress_mpa
        }),
{
    let specs = fitted_of(all, req);
    let segs = all_segments(specs, specs.len());
    let t = segment_temps(segs);
    let x = segment_stresses(segs);
    lemma_all_segments(specs, specs.len(), s, g);
    let n = choose|n: int| 0 <= n < segs.len() && segs[n] == specs[s].segments@[g];
    assert forall|i: int| 0 <= i < t.len() implies !(#[trigger] t[i]).nan() by {
        assert(t[i] == fsub(segs[i].temp_kelvin, lit(ICE_POINT)));
    }
    assert forall|i: int| 0 <= i < x.len() implies !(#[trigger] x[i]).nan() by {
        assert(!fsub(segs[i].temp_kelvin, lit(ICE_POINT)).nan());
    }
    law_extremes(t, t.len());
    law_extremes(x, x.len());
    assert(fle(least(t, t.len()), t[n]) && fle(least(x, x.len()), x[n]));
    let a = choose|i: int| 0 <= i < t.len() && #[trigger] t[i] == least(t, t.len());
    let b = choose|i: int| 0 <= i < t.len() && #[trigger] t[i] == greatest(t, t.len());
    let c = choose|i: int| 0 <= i < x.len() && #[trigger] x[i] == least(x, x.len());
    let d = choose|i: int| 0 <= i < x.len() && #[trigger] x[i] == greatest(x, x.len());
    assert(fsub(segs[a].temp_kelvin, lit(ICE_POINT)) == r.envelope.min_temp_c);
    assert(fsub(segs[b].temp_kelvin, lit(ICE_POINT)) == r.envelope.max_temp_c);
    assert(segs[c].stress_mpa == r.envelope.min_stress_mpa);
    assert(segs[d].stress_mpa == r.envelope.max_stress_mpa);
}

} // verus!
