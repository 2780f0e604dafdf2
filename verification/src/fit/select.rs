//! Which specimens take part in a fit.
use vstd::prelude::*;
use crate::fit::InclusionRow;
use crate::specimen::Specimen;
use crate::text::{cat, same};

verus! {

/// Why a specimen is left out, if it is: failure criteria are not mixed, and a variable
/// load needs a damage model.
pub open spec fn left_out(s: Specimen, criterion: Seq<char>, damage_model: bool) -> Option<Seq<char>> {
    if s.criterion@ != criterion {
        Some("失效准则为 "@ + s.criterion@ + "，与本次 "@ + criterion + " 不同，不混合"@)
    } else if s.variable && !damage_model {
        Some("变载样本但未启用累积损伤模型，按要求不参与拟合"@)
    } else {
        None
    }
}

/// The specimens among the first `k` that take part, in their order.
pub open spec fn chosen(
    all: Seq<Specimen>,
    criterion: Seq<char>,
    damage_model: bool,
    k: nat,
) -> Seq<Specimen>
    decreases k,
{
    if k == 0 {
        Seq::empty()
    } else {
        let before = chosen(all, criterion, damage_model, (k - 1) as nat);
        if left_out(all[k - 1], criterion, damage_model) is None {
            before.push(all[k - 1])
        } else {
            before
        }
    }
}

/// What is reported of a specimen.
pub open spec fn inclusion_is(
    s: Specimen,
    criterion: Seq<char>,
    damage_model: bool,
    r: InclusionRow,
) -> bool {
    let why = left_out(s, criterion, damage_model);
    &&& r.specimen_id@ == s.specimen_id@
    &&& r.heat@ == s.heat@
    &&& r.temp_c == s.temp_c
    &&& r.stress_mpa == s.stress_mpa
    &&& r.outcome@ == s.outcome@
    &&& r.variable == s.variable
    &&& r.included == (why is None)
    &&& r.reason@ == (match why {
        Some(t) => t,
        None => "纳入"@,
    })
}

/// The specimens that references stand for.
pub open spec fn referred(v: Seq<&Specimen>) -> Seq<Specimen> {
    v.map_values(|s: &Specimen| *s)
}

/// The specimens that take part, and the report on every one.
pub fn select_specimens<'a>(all: &'a Vec<Specimen>, criterion: &str, damage_model: bool) -> (r: (
    Vec<&'a Specimen>,
    Vec<InclusionRow>,
))
    ensures
        referred(r.0@) == chosen(all@, criterion@, damage_model, all@.len()),
        r.0@.len() <= all@.len(),
        r.1@.len() == all@.len(),
        forall|i: int|
            0 <= i < all@.len() ==> inclusion_is(
                all@[i],
                criterion@,
                damage_model,
                #[trigger] r.1@[i],
            ),
{
    let mut inc: Vec<&'a Specimen> = Vec::new();
    let mut rows: Vec<InclusionRow> = Vec::new();
    proof {
        assert(referred(inc@) =~= Seq::empty());
    }
    let mut i: usize = 0;
    while i < all.len()
        invariant
            i <= all@.len(),
            referred(inc@) == chosen(all@, criterion@, damage_model, i as nat),
            inc@.len() <= i,
            rows@.len() == i,
            forall|k: int|
                0 <= k < i ==> inclusion_is(
                    all@[k],
                    criterion@,
                    damage_model,
                    #[trigger] rows@[k],
                ),
        decreases all@.len() - i,
    {
        let s: &'a Specimen = &all[i];
        let mut included: bool = true;
        let mut reason: String = "纳入".to_owned();
        if !same(s.criterion.as_str(), criterion) {
            included = false;
            let a: String = cat(cat("失效准则为 ", s.criterion.as_str()).as_str(), "，与本次 ");
            reason = cat(cat(a.as_str(), criterion).as_str(), " 不同，不混合");
        } else if s.variable && !damage_model {
            included = false;
            reason = "变载样本但未启用累积损伤模型，按要求不参与拟合".to_owned();
        }
        if included {
            let ghost before = referred(inc@);
            inc.push(s);
            proof {
                assert(referred(inc@) =~= before.push(*s));
            }
        }
        rows.push(
            InclusionRow {
                specimen_id: s.specimen_id.clone(),
                heat: s.heat.clone(),
                temp_c: s.temp_c,
                stress_mpa: s.stress_mpa,
                outcome: s.outcome.clone(),
                variable: s.variable,
                included,
                reason,
            },
        );
        i = i + 1;
    }
    (inc, rows)
}

/// Failure criteria are never mixed, and a specimen of variable load takes part only with a
/// damage model.
pub proof fn law_chosen_match(all: Seq<Specimen>, criterion: Seq<char>, damage_model: bool, k: nat, i: int)
    requires
        0 <= i < chosen(all, criterion, damage_model, k).len(),
    ensures
        chosen(all, criterion, damage_model, k)[i].criterion@ == criterion,
        chosen(all, criterion, damage_model, k)[i].variable ==> damage_model,
    decreases k,
{
    if k > 0 {
        let before = chosen(all, criterion, damage_model, (k - 1) as nat);
        if i < before.len() {
            law_chosen_match(all, criterion, damage_model, (k - 1) as nat, i);
        }
    }
}

/// The specimens that take part are those that are reported as included.
pub proof fn law_chosen_are_included(
    all: Seq<Specimen>,
    criterion: Seq<char>,
    damage_model: bool,
    k: nat,
    i: int,
)
    requires
        0 <= i < k <= all.len(),
    ensures
        chosen(all, criterion, damage_model, k).contains(all[i]) <==> left_out(
            all[i],
            criterion,
            damage_model,
        ) is None,
    decreases k,
{
    let before = chosen(all, criterion, damage_model, (k - 1) as nat);
    let after = chosen(all, criterion, damage_model, k);
    if left_out(all[i], criterion, damage_model) is None {
        if i == k - 1 {
            assert(after[after.len() - 1] == all[i]);
        } else {
            law_chosen_are_included(all, criterion, damage_model, (k - 1) as nat, i);
            let j = choose|j: int| 0 <= j < before.len() && before[j] == all[i];
            assert(after[j] == all[i]);
        }
    } else if after.contains(all[i]) {
        let j = choose|j: int| 0 <= j < after.len() && after[j] == all[i];
        law_chosen_match(all, criterion, damage_model, k, j);
    }
}

/// The specimens of constant load among the first `k`.
pub open spec fn constant_only(all: Seq<Specimen>, k: nat) -> Seq<Specimen>
    decreases k,
{
    if k == 0 {
        Seq::empty()
    } else if all[k - 1].variable {
        constant_only(all, (k - 1) as nat)
    } else {
        constant_only(all, (k - 1) as nat).push(all[k - 1])
    }
}

/// A damage model only adds specimens of variable load: without them the specimens that
/// take part are the same, in the same order.
pub proof fn law_damage_only_adds(all: Seq<Specimen>, criterion: Seq<char>, k: nat)
    requires
        k <= all.len(),
    ensures
        chosen(all, criterion, false, k) == constant_only(
            chosen(all, criterion, true, k),
            chosen(all, criterion, true, k).len(),
        ),
    decreases k,
{
    if k > 0 {
        law_damage_only_adds(all, criterion, (k - 1) as nat);
        let before = chosen(all, criterion, true, (k - 1) as nat);
        let after = chosen(all, criterion, true, k);
        if after.len() > before.len() {
            lemma_constant_front(before, after, before.len());
        }
    }
}

proof fn lemma_constant_front(a: Seq<Specimen>, b: Seq<Specimen>, k: nat)
    requires
        k <= a.len(),
        k <= b.len(),
        forall|i: int| 0 <= i < k ==> a[i] == b[i],
    ensures
        constant_only(a, k) == constant_only(b, k),
    decreases k,
{
    if k > 0 {
        lemma_constant_front(a, b, (k - 1) as nat);
    }
}

} // verus!
