//! What the service decides: the tally of an import, and the comparison of two runs.
use vstd::prelude::*;
use crate::json::{held, item_texts, member_items, member_number, member_text, number_member,
    text_member, texts_of, Json};
use crate::number::{feq, fle, fneg, lit, Real};
use crate::number::arith::fsub;
use crate::number::consts::ZERO;
use crate::number::order::{law_commutes, law_negation, law_signs, law_sum_is_number};
use crate::specimen::DomainError;
use crate::strset::{difference, equal, missing, set_of, to_set};
use crate::text::{cat, decimal_signed, join, joined, same, show_signed, views};

verus! {

// ---- imports ----

/// What became of a specimen that was accepted.
pub enum Insertion {
    /// It is new in the store.
    New,
    /// The store has one of its name.
    Duplicate,
    /// The store failed, with these words.
    Failed(String),
}

/// What became of the specimens of an import.
#[derive(Debug)]
pub struct Tally {
    pub received: usize,
    pub imported: usize,
    pub skipped_duplicate: usize,
    pub rejected: Vec<String>,
}

impl Tally {
    /// Every specimen that was received is imported, skipped or rejected, and only once.
    pub open spec fn balanced(self) -> bool {
        self.received == self.imported + self.skipped_duplicate + self.rejected@.len()
    }

    pub fn new() -> (r: Tally)
        ensures
            r.received == 0,
            r.imported == 0,
            r.skipped_duplicate == 0,
            r.rejected@.len() == 0,
            r.balanced(),
    {
        Tally { received: 0, imported: 0, skipped_duplicate: 0, rejected: Vec::new() }
    }

    /// Counts a specimen that was not accepted.
    pub fn refuse(&mut self, e: DomainError)
        requires
            old(self).balanced(),
            old(self).received < usize::MAX,
        ensures
            final(self).balanced(),
            final(self).received == old(self).received + 1,
            final(self).imported == old(self).imported,
            final(self).skipped_duplicate == old(self).skipped_duplicate,
            views(final(self).rejected@) == views(old(self).rejected@).push(e.0@),
    {
        let ghost before = views(self.rejected@);
        self.received = self.received + 1;
        self.rejected.push(e.0);
        proof {
            assert(views(self.rejected@) =~= before.push(e.0@));
        }
    }

    /// Counts what became of an accepted specimen. A failure of the store is reported under
    /// the `name` that is given, where one is.
    pub fn count(&mut self, name: Option<&str>, what: Insertion)
        requires
            old(self).balanced(),
            old(self).received < usize::MAX,
        ensures
            final(self).balanced(),
            final(self).received == old(self).received + 1,
            final(self).imported == old(self).imported + (if what is New {
                1int
            } else {
                0int
            }),
            final(self).skipped_duplicate == old(self).skipped_duplicate + (if what is Duplicate {
                1int
            } else {
                0int
            }),
            views(final(self).rejected@) == (match what {
                Insertion::Failed(e) => views(old(self).rejected@).push(
                    match name {
                        Some(n) => n@ + ": "@ + e@,
                        None => e@,
                    },
                ),
                _ => views(old(self).rejected@),
            }),
    {
        let ghost before = views(self.rejected@);
        match what {
            Insertion::New => {
                self.imported = self.imported + 1;
            },
            Insertion::Duplicate => {
                self.skipped_duplicate = self.skipped_duplicate + 1;
            },
            Insertion::Failed(e) => {
                let words: String = match name {
                    Some(n) => cat(cat(n, ": ").as_str(), e.as_str()),
                    None => e,
                };
                self.rejected.push(words);
                proof {
                    assert(views(self.rejected@) =~= before.push(words@));
                }
            },
        }
        self.received = self.received + 1;
    }
}

// ---- comparisons ----

/// What a comparison reads of a run.
#[derive(Debug)]
pub struct RunFacts {
    pub criterion: String,
    /// The names of the specimens of the run, sorted, each once.
    pub ids: Vec<String>,
    pub aic: Real,
}

/// What a comparison reads of the report on a run: an empty criterion, no specimens and an
/// AIC of 0 stand for what is not there.
pub open spec fn facts_are(j: Json, f: RunFacts) -> bool {
    let items = member_items(j, "residuals"@);
    let names = texts_of(items, "specimen_id"@, items.len());
    &&& f.criterion@ == (match member_text(j, "criterion"@) {
        Some(t) => t,
        None => ""@,
    })
    &&& views(f.ids@) == set_of(names, names.len())
    &&& f.aic == (match member_number(j, "aic"@) {
        Some(n) => n,
        None => lit(ZERO),
    })
}

pub fn read_facts(v: &serde_json::Value) -> (r: RunFacts)
    ensures
        facts_are(held(*v), r),
{
    let criterion: String = match text_member(v, "criterion") {
        Some(t) => t.to_owned(),
        None => "".to_owned(),
    };
    let names: Vec<String> = item_texts(v, "residuals", "specimen_id");
    proof {
        assert(views(names@).len() == names@.len());
    }
    let aic: Real = match number_member(v, "aic") {
        Some(n) => n,
        None => lit(ZERO),
    };
    RunFacts { criterion, ids: to_set(&names), aic }
}

#[derive(Debug)]
pub struct Comparison {
    pub same_criterion: String,
    pub same_samples: usize,
    pub aic_a: Real,
    pub aic_b: Real,
    pub delta_aic: Real,
    pub preferred_by_aic: i64,
    pub note: String,
}

/// Why two runs are not compared.
#[derive(Debug)]
pub enum Refusal {
    NotFound(String),
    BadRequest(String),
}

/// Why two runs may not be compared, if they may not: other criteria, or other specimens.
pub open spec fn mismatch(a: RunFacts, b: RunFacts) -> Option<Seq<char>> {
    if a.criterion@ != b.criterion@ {
        Some(
            "两次运行失效准则不同（"@ + a.criterion@ + " vs "@ + b.criterion@
                + "），不允许在同一样本组上比较"@,
        )
    } else if views(a.ids@) != views(b.ids@) {
        Some(
            "两次运行纳入样本集合不同（仅在 A: "@ + joined(
                missing(views(a.ids@), views(b.ids@), a.ids@.len()),
                ","@,
            ) + " / 仅在 B: "@ + joined(
                missing(views(b.ids@), views(a.ids@), b.ids@.len()),
                ","@,
            ) + "）；请对齐损伤模型开关后再比较"@,
        )
    } else {
        None
    }
}

/// The comparison of two runs that may be compared: the lesser AIC is preferred, the first
/// run where they are equal.
pub open spec fn comparison_is(run_a: i64, run_b: i64, a: RunFacts, b: RunFacts, c: Comparison) -> bool {
    &&& c.same_criterion@ == a.criterion@
    &&& c.same_samples == a.ids@.len()
    &&& c.aic_a == a.aic
    &&& c.aic_b == b.aic
    &&& c.delta_aic == fsub(a.aic, b.aic)
    &&& c.preferred_by_aic == (if fle(a.aic, b.aic) {
        run_a
    } else {
        run_b
    })
    &&& c.note@ == "两个模型在完全相同的样本集合上比较；不同失效准则的试验从未混为一组"@
}

pub fn compare_facts(run_a: i64, run_b: i64, a: &RunFacts, b: &RunFacts) -> (r: Result<Comparison, Refusal>)
    ensures
        match r {
            Ok(c) => mismatch(*a, *b) is None && comparison_is(run_a, run_b, *a, *b, c),
            Err(Refusal::BadRequest(e)) => mismatch(*a, *b) == Some(e@),
            Err(Refusal::NotFound(_)) => false,
        },
{
    if !same(a.criterion.as_str(), b.criterion.as_str()) {
        let head: String = cat("两次运行失效准则不同（", a.criterion.as_str());
        let both: String = cat(cat(head.as_str(), " vs ").as_str(), b.criterion.as_str());
        return Err(
            Refusal::BadRequest(cat(both.as_str(), "），不允许在同一样本组上比较")),
        );
    }
    if !equal(&a.ids, &b.ids) {
        let only_a: String = join(&difference(&a.ids, &b.ids), ",");
        let only_b: String = join(&difference(&b.ids, &a.ids), ",");
        let head: String = cat("两次运行纳入样本集合不同（仅在 A: ", only_a.as_str());
        let both: String = cat(cat(head.as_str(), " / 仅在 B: ").as_str(), only_b.as_str());
        return Err(
            Refusal::BadRequest(cat(both.as_str(), "）；请对齐损伤模型开关后再比较")),
        );
    }
    Ok(
        Comparison {
            same_criterion: a.criterion.clone(),
            same_samples: a.ids.len(),
            aic_a: a.aic,
            aic_b: b.aic,
            delta_aic: a.aic.minus(b.aic),
            preferred_by_aic: if a.aic.le(b.aic) { run_a } else { run_b },
            note: "两个模型在完全相同的样本集合上比较；不同失效准则的试验从未混为一组".to_owned(),
        },
    )
}

/// What is said of a run that is not there.
pub open spec fn absent(run: i64) -> Seq<char> {
    "运行 "@ + decimal_signed(run as int) + " 不存在"@
}

fn absent_words(run: i64) -> (r: String)
    ensures
        r@ == absent(run),
{
    let n: String = show_signed(run);
    cat(cat("运行 ", n.as_str()).as_str(), " 不存在")
}

/// Compares the reports on two runs, where both are there and they may be compared.
pub fn compare(
    run_a: i64,
    run_b: i64,
    a: Option<&serde_json::Value>,
    b: Option<&serde_json::Value>,
) -> (r: Result<
    Comparison,
    Refusal,
>)
    ensures
        match (a, b) {
            (None, _) => r matches Err(Refusal::NotFound(e)) && e@ == absent(run_a),
            (Some(_), None) => r matches Err(Refusal::NotFound(e)) && e@ == absent(run_b),
            (Some(v), Some(w)) => exists|f: RunFacts, g: RunFacts|
                {
                    &&& #[trigger] facts_are(held(*v), f)
                    &&& #[trigger] facts_are(held(*w), g)
                    &&& match r {
                        Ok(c) => mismatch(f, g) is None && comparison_is(run_a, run_b, f, g, c),
                        Err(Refusal::BadRequest(e)) => mismatch(f, g) == Some(e@),
                        Err(Refusal::NotFound(_)) => false,
                    }
                },
        },
{
    let va: &serde_json::Value = match a {
        Some(v) => v,
        None => {
            return Err(Refusal::NotFound(absent_words(run_a)));
        },
    };
    let vb: &serde_json::Value = match b {
        Some(v) => v,
        None => {
            return Err(Refusal::NotFound(absent_words(run_b)));
        },
    };
    let fa: RunFacts = read_facts(va);
    let fb: RunFacts = read_facts(vb);
    proof {
        assert(facts_are(held(*va), fa));
        assert(facts_are(held(*vb), fb));
    }
    compare_facts(run_a, run_b, &fa, &fb)
}

/// Runs of different criteria are never compared, and neither are runs on different
/// specimens.
pub proof fn law_only_like_is_compared(run_a: i64, run_b: i64, a: RunFacts, b: RunFacts)
    ensures
        mismatch(a, b) is None <==> a.criterion@ == b.criterion@ && views(a.ids@) == views(b.ids@),
{
}

/// No other run of the two has a lesser AIC than the preferred one.
pub proof fn law_preferred_is_least(run_a: i64, run_b: i64, a: RunFacts, b: RunFacts, c: Comparison)
    requires
        comparison_is(run_a, run_b, a, b, c),
        !a.aic.nan(),
        !b.aic.nan(),
    ensures
        c.preferred_by_aic == run_a && fle(a.aic, b.aic) || c.preferred_by_aic == run_b && fle(
            b.aic,
            a.aic,
        ),
{
}

/// Whether two runs may be compared does not depend on which is named first.
pub proof fn law_mismatch_symmetric(a: RunFacts, b: RunFacts)
    ensures
        mismatch(a, b) is None <==> mismatch(b, a) is None,
{
}

/// Two runs compare alike whichever is named first: what is said of the one is then said of
/// the other, the difference changes its sign, and the same run is preferred, but for runs of
/// equal AIC, of which the first is.
pub proof fn law_comparison_swaps(
    run_a: i64,
    run_b: i64,
    a: RunFacts,
    b: RunFacts,
    c: Comparison,
    d: Comparison,
)
    requires
        mismatch(a, b) is None,
        comparison_is(run_a, run_b, a, b, c),
        comparison_is(run_b, run_a, b, a, d),
        !a.aic.nan(),
        !b.aic.nan(),
    ensures
        mismatch(b, a) is None,
        d.same_criterion@ == c.same_criterion@,
        d.same_samples == c.same_samples,
        d.aic_a == c.aic_b,
        d.aic_b == c.aic_a,
        d.note@ == c.note@,
        c.delta_aic.nan() <==> d.delta_aic.nan(),
        !c.delta_aic.nan() ==> feq(d.delta_aic, fneg(c.delta_aic)),
        !feq(a.aic, b.aic) ==> d.preferred_by_aic == c.preferred_by_aic,
        feq(a.aic, b.aic) ==> c.preferred_by_aic == run_a && d.preferred_by_aic == run_b,
{
    if a.aic.finite() && b.aic.finite() {
        law_sum_is_number(a.aic, fneg(b.aic));
        law_sum_is_number(b.aic, fneg(a.aic));
    }
    law_signs(a.aic, fneg(b.aic));
    law_negation(b.aic, b.aic);
    law_commutes(fneg(a.aic), b.aic);
    assert(views(a.ids@).len() == a.ids@.len());
    assert(views(b.ids@).len() == b.ids@.len());
}

} // verus!
