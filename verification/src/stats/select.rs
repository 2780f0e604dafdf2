//! Which samples take part in a fit.
//!
//! Samples of another failure criterion never do, and samples of variable load do only
//! where a cumulative damage model has been chosen.
use vstd::prelude::*;
use crate::host::{answer, ask, is_math, Call, Print};
use crate::ingest::{refusal, stored, Sample, StoredSegment, ValidSample, ICE_POINT};
use crate::number::{lit, Real};
use crate::number::arith::fadd;
use crate::stats::{Obs, ObsKind, Seg};
use crate::text::{cat, same};

verus! {

pub open spec fn is_variable(s: ValidSample) -> bool {
    s.load_kind@ == "variable"@
}

/// Why a sample is left out, if it is.
pub open spec fn left_out(s: ValidSample, criterion: Seq<char>, damage_model: bool) -> Option<Seq<char>> {
    if s.criterion@ != criterion {
        Some("失效准则 "@ + s.criterion@ + " != "@ + criterion)
    } else if is_variable(s) && !damage_model {
        Some("变载样本：未选定累积损伤模型，不参与拟合"@)
    } else {
        None
    }
}

/// Whether a sample has what an observation is made from.
pub open spec fn usable(s: ValidSample) -> bool {
    if is_variable(s) {
        s.segments@.len() > 0
    } else {
        s.stress_mpa is Some && (s.temp_c is Some || s.segments@.len() > 0)
    }
}

pub open spec fn kelvin(c: Real) -> Real {
    fadd(c, lit(ICE_POINT))
}

pub open spec fn seg_of(g: StoredSegment) -> Seg {
    Seg { temp_k: kelvin(g.temp_c), stress: g.stress_mpa, hours: g.hours_h }
}

pub open spec fn kind_of(s: ValidSample) -> ObsKind {
    if s.status@ == "fractured"@ {
        ObsKind::Exact
    } else {
        ObsKind::Censored
    }
}

/// The observation that a sample is: a fractured one is exact and any other censored.
pub open spec fn observed<M: Fn(Call) -> Real>(math: M, s: ValidSample, o: Obs) -> bool {
    &&& o.sample_id@ == s.id@
    &&& o.heat@ == s.heat@
    &&& o.kind == kind_of(s)
    &&& o.variable == is_variable(s)
    &&& o.y_time == answer(math, Call::Log10(s.time_h))
    &&& o.segments@ == (if is_variable(s) {
        s.segments@.map_values(|g: StoredSegment| seg_of(g))
    } else {
        Seq::empty()
    })
    &&& o.temp_k == (if is_variable(s) || s.temp_c is None {
        kelvin(s.segments@.last().temp_c)
    } else {
        kelvin(s.temp_c->0)
    })
    &&& o.stress == (if is_variable(s) {
        s.segments@.last().stress_mpa
    } else {
        s.stress_mpa->0
    })
}

/// The samples among the first `k` that take part, in their order.
pub open spec fn kept(
    samples: Seq<ValidSample>,
    criterion: Seq<char>,
    damage_model: bool,
    k: nat,
) -> Seq<ValidSample>
    decreases k,
{
    if k == 0 {
        Seq::empty()
    } else {
        let before = kept(samples, criterion, damage_model, (k - 1) as nat);
        if left_out(samples[k - 1], criterion, damage_model) is None {
            before.push(samples[k - 1])
        } else {
            before
        }
    }
}

/// The ids of the samples among the first `k` that do not, with the reasons, in their order.
pub open spec fn dropped(
    samples: Seq<ValidSample>,
    criterion: Seq<char>,
    damage_model: bool,
    k: nat,
) -> Seq<
    (Seq<char>, Seq<char>),
>
    decreases k,
{
    if k == 0 {
        Seq::empty()
    } else {
        let before = dropped(samples, criterion, damage_model, (k - 1) as nat);
        match left_out(samples[k - 1], criterion, damage_model) {
            Some(why) => before.push((samples[k - 1].id@, why)),
            None => before,
        }
    }
}

pub open spec fn pair_views(v: Seq<(String, String)>) -> Seq<(Seq<char>, Seq<char>)> {
    v.map_values(|p: (String, String)| (p.0@, p.1@))
}

fn segs(s: &ValidSample) -> (r: Vec<Seg>)
    ensures
        r@ == s.segments@.map_values(|g: StoredSegment| seg_of(g)),
{
    let mut out: Vec<Seg> = Vec::new();
    let mut i: usize = 0;
    while i < s.segments.len()
        invariant
            i <= s.segments@.len(),
            out@.len() == i,
            forall|k: int| 0 <= k < i ==> #[trigger] out@[k] == seg_of(s.segments@[k]),
        decreases s.segments@.len() - i,
    {
        let g: StoredSegment = s.segments[i];
        out.push(
            Seg { temp_k: g.temp_c.plus(lit(ICE_POINT)), stress: g.stress_mpa, hours: g.hours_h },
        );
        i = i + 1;
    }
    proof {
        assert(out@ =~= s.segments@.map_values(|g: StoredSegment| seg_of(g)));
    }
    out
}

fn observation<M: Fn(Call) -> Real>(math: &M, s: &ValidSample) -> (o: Obs)
    requires
        is_math(*math),
        usable(*s),
    ensures
        observed(*math, *s, o),
{
    let kind: ObsKind = if same(s.status.as_str(), "fractured") {
        ObsKind::Exact
    } else {
        ObsKind::Censored
    };
    let y_time: Real = ask(math, Call::Log10(s.time_h));
    if same(s.load_kind.as_str(), "variable") {
        let segments: Vec<Seg> = segs(s);
        let last: Seg = segments[segments.len() - 1];
        Obs {
            sample_id: s.id.clone(),
            heat: s.heat.clone(),
            kind,
            temp_k: last.temp_k,
            stress: last.stress,
            y_time,
            segments,
            variable: true,
        }
    } else {
        let temp_c: Real = match s.temp_c {
            Some(c) => c,
            None => s.segments[s.segments.len() - 1].temp_c,
        };
        let stress: Real = s.stress_mpa.unwrap();
        Obs {
            sample_id: s.id.clone(),
            heat: s.heat.clone(),
            kind,
            temp_k: temp_c.plus(lit(ICE_POINT)),
            stress,
            y_time,
            segments: Vec::new(),
            variable: false,
        }
    }
}

/// The observations of the samples that take part, and the others with the reasons.
pub fn select_observations<M: Fn(Call) -> Real>(
    samples: &Vec<ValidSample>,
    criterion: &str,
    damage_model: bool,
    math: &M,
) -> (r: (Vec<Obs>, Vec<(String, String)>))
    requires
        is_math(*math),
        forall|i: int|
            0 <= i < samples@.len() && left_out(#[trigger] samples@[i], criterion@, damage_model)
                is None ==> usable(samples@[i]),
    ensures
        ({
            let chosen = kept(samples@, criterion@, damage_model, samples@.len());
            r.0@.len() == chosen.len() && forall|i: int|
                0 <= i < chosen.len() ==> observed(*math, chosen[i], #[trigger] r.0@[i])
        }),
        pair_views(r.1@) == dropped(samples@, criterion@, damage_model, samples@.len()),
{
    let mut obs: Vec<Obs> = Vec::new();
    let mut excluded: Vec<(String, String)> = Vec::new();
    proof {
        assert(pair_views(excluded@) =~= Seq::empty());
    }
    let mut i: usize = 0;
    while i < samples.len()
        invariant
            is_math(*math),
            forall|i: int|
                0 <= i < samples@.len() && left_out(
                    #[trigger] samples@[i],
                    criterion@,
                    damage_model,
                ) is None ==> usable(samples@[i]),
            i <= samples@.len(),
            obs@.len() == kept(samples@, criterion@, damage_model, i as nat).len(),
            forall|k: int|
                0 <= k < obs@.len() ==> observed(
                    *math,
                    kept(samples@, criterion@, damage_model, i as nat)[k],
                    #[trigger] obs@[k],
                ),
            pair_views(excluded@) == dropped(samples@, criterion@, damage_model, i as nat),
        decreases samples@.len() - i,
    {
        let s: &ValidSample = &samples[i];
        let ghost before = excluded@;
        if !same(s.criterion.as_str(), criterion) {
            let head: String = cat("失效准则 ", s.criterion.as_str());
            let why: String = cat(cat(head.as_str(), " != ").as_str(), criterion);
            excluded.push((s.id.clone(), why));
            proof {
                assert(pair_views(excluded@) =~= pair_views(before).push((s.id@, why@)));
            }
        } else if same(s.load_kind.as_str(), "variable") && !damage_model {
            let why: String = "变载样本：未选定累积损伤模型，不参与拟合".to_owned();
            excluded.push((s.id.clone(), why));
            proof {
                assert(pair_views(excluded@) =~= pair_views(before).push((s.id@, why@)));
            }
        } else {
            obs.push(observation(math, s));
        }
        i = i + 1;
    }
    (obs, excluded)
}

/// What is accepted at the door can be selected: a stored sample has what an observation is
/// made from.
pub proof fn law_stored_is_usable<S: Fn(Print) -> String>(
    show: S,
    s: Sample,
    known: Seq<Seq<char>>,
    v: ValidSample,
)
    requires
        refusal(show, s, known) is None,
        stored(show, s, v),
    ensures
        usable(v),
{
    reveal_strlit("constant");
    reveal_strlit("variable");
    crate::ingest::law_accepted_is_sound(show, s, known);
    assert("constant"@[0] == 'c');
    assert("variable"@[0] == 'v');
}

/// Failure criteria are never mixed, and a sample of variable load takes part only where a
/// damage model has been chosen.
pub proof fn law_kept_match(
    samples: Seq<ValidSample>,
    criterion: Seq<char>,
    damage_model: bool,
    k: nat,
    i: int,
)
    requires
        0 <= i < kept(samples, criterion, damage_model, k).len(),
    ensures
        kept(samples, criterion, damage_model, k)[i].criterion@ == criterion,
        is_variable(kept(samples, criterion, damage_model, k)[i]) ==> damage_model,
    decreases k,
{
    if k > 0 {
        let before = kept(samples, criterion, damage_model, (k - 1) as nat);
        if i < before.len() {
            law_kept_match(samples, criterion, damage_model, (k - 1) as nat, i);
        }
    }
}

/// Every sample is either kept or dropped, and none is both.
pub proof fn law_none_lost(samples: Seq<ValidSample>, criterion: Seq<char>, damage_model: bool, k: nat)
    requires
        k <= samples.len(),
    ensures
        kept(samples, criterion, damage_model, k).len() + dropped(
            samples,
            criterion,
            damage_model,
            k,
        ).len() == k,
        forall|i: int|
            0 <= i < k ==> (kept(samples, criterion, damage_model, k).contains(#[trigger] samples[i])
                <==> left_out(samples[i], criterion, damage_model) is None),
    decreases k,
{
    if k > 0 {
        law_none_lost(samples, criterion, damage_model, (k - 1) as nat);
        let before = kept(samples, criterion, damage_model, (k - 1) as nat);
        let after = kept(samples, criterion, damage_model, k);
        assert forall|i: int| 0 <= i < k implies (after.contains(#[trigger] samples[i])
            <==> left_out(samples[i], criterion, damage_model) is None) by {
            if left_out(samples[i], criterion, damage_model) is None {
                if i < k - 1 {
                    let j = choose|j: int| 0 <= j < before.len() && before[j] == samples[i];
                    assert(after[j] == samples[i]);
                } else {
                    assert(after[after.len() - 1] == samples[i]);
                }
            } else if after.contains(samples[i]) {
                let j = choose|j: int| 0 <= j < after.len() && after[j] == samples[i];
                law_kept_match(samples, criterion, damage_model, k, j);
            }
        }
    }
}

/// Choosing a damage model only adds samples of variable load: without them the kept
/// samples are the same, in the same order.
pub proof fn law_damage_only_adds(samples: Seq<ValidSample>, criterion: Seq<char>, k: nat)
    requires
        k <= samples.len(),
    ensures
        kept(samples, criterion, false, k) == constant_only(
            kept(samples, criterion, true, k),
            kept(samples, criterion, true, k).len(),
        ),
    decreases k,
{
    if k > 0 {
        law_damage_only_adds(samples, criterion, (k - 1) as nat);
        let before = kept(samples, criterion, true, (k - 1) as nat);
        let after = kept(samples, criterion, true, k);
        if after.len() > before.len() {
            lemma_constant_front(before, after, before.len());
        }
    }
}

/// The samples of constant load among the first `k`.
pub open spec fn constant_only(samples: Seq<ValidSample>, k: nat) -> Seq<ValidSample>
    decreases k,
{
    if k == 0 {
        Seq::empty()
    } else if is_variable(samples[k - 1]) {
        constant_only(samples, (k - 1) as nat)
    } else {
        constant_only(samples, (k - 1) as nat).push(samples[k - 1])
    }
}

proof fn lemma_constant_front(a: Seq<ValidSample>, b: Seq<ValidSample>, k: nat)
    requires
        k <= a.len(),
        k <= b.len(),
        forall|i: int| 0 <= i < k ==> a[i] == b[i],
    ensures
        constant_only(a, k) == constant_only(b, k),
    decreases k,
{
    if k > 0 {
        lemma_constant_front(a, b, (k - 1) as nat);
    }
}

} // verus!
