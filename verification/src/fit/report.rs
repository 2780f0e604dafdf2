//! The report on a fit: parameters, offsets, counts, the envelope and what the censored
//! specimens add.
use vstd::prelude::*;
use crate::fit::{CensorEntry, Envelope, ParamReport, ResidualRow};
use crate::fit::master::MasterModel;
use crate::fit::problem::{Plan, Problem};
use crate::fit::select::referred;
use crate::host::{answer, ask, is_math, is_printer, print, printed, Call, Print};
use crate::ingest::ICE_POINT;
use crate::linalg::{greatest, greatest_of, least, least_of, square};
use crate::number::{fabs, flt, lit, Real};
use crate::number::arith::{fadd, fdiv, fmul, fsub};
use crate::number::consts::{FOUR, ONE, TEN, TWO, ZERO};
use crate::number::convert::{finteger, to_integer};
use crate::simplex::rows;
use crate::specimen::{Segment, Specimen};
use crate::text::{cat, given_if, push_if, same, views};

verus! {

/// 5.5, beyond which a searched value counts as at its bound.
pub const NEAR_BOUND: u64 = 0x4016_0000_0000_0000;

/// 100
pub const HUNDRED: u64 = 0x4059_0000_0000_0000;

/// 1000
pub const THOUSAND: u64 = 0x408f_4000_0000_0000;

/// 10000
pub const TEN_THOUSAND: u64 = 0x40c3_8800_0000_0000;

/// 1e6
pub const MILLION: u64 = 0x412e_8480_0000_0000;

/// `x` rounded to a multiple of `1 / scale`, halves away from zero.
pub open spec fn rounded_at(x: Real, scale: Real) -> Real {
    fdiv(finteger(fmul(x, scale)), scale)
}

pub fn round_at(x: Real, scale: Real) -> (r: Real)
    ensures
        r == rounded_at(x, scale),
{
    x.times(scale).to_integral().over(scale)
}

// ---- parameters ----

pub open spec fn param_is(
    p: ParamReport,
    name: Seq<char>,
    value: Real,
    se: Option<Real>,
    note: Seq<char>,
) -> bool {
    &&& p.name@ == name
    &&& p.value == value
    &&& p.se == se
    &&& p.note@ == note
}

/// Whether the numbers of a row are finite.
pub open spec fn row_finite(row: Seq<Real>) -> bool {
    forall|j: int| 0 <= j < row.len() ==> (#[trigger] row[j]).finite()
}

fn is_row_finite(row: &Vec<Real>) -> (r: bool)
    ensures
        r == row_finite(row@),
{
    let mut j: usize = 0;
    while j < row.len()
        invariant
            j <= row@.len(),
            forall|k: int| 0 <= k < j ==> (#[trigger] row@[k]).finite(),
        decreases row@.len() - j,
    {
        if !row[j].is_finite() {
            proof {
                assert(!row@[j as int].finite());
            }
            return false;
        }
        j = j + 1;
    }
    true
}

/// The standard error of a parameter at the part `p` of a range, carried from the variance
/// of the searched value.
pub open spec fn mapped_error<M: Fn(Call) -> Real>(math: M, range: Real, p: Real, var: Real) -> Real {
    let d = fmul(fmul(range, p), fsub(lit(ONE), p));
    answer(math, Call::Sqrt(fabs(fmul(fmul(d, d), var))))
}

fn map_error<M: Fn(Call) -> Real>(math: &M, range: Real, p: Real, var: Real) -> (r: Real)
    requires
        is_math(*math),
    ensures
        r == mapped_error(*math, range, p, var),
{
    let d: Real = range.times(p).times(lit(ONE).minus(p));
    ask(math, Call::Sqrt(d.times(d).times(var).abs()))
}

/// Whether a searched value is at its bound.
pub open spec fn at_bound(v: Real) -> bool {
    flt(lit(NEAR_BOUND), fabs(v))
}

pub open spec fn bound_note(v: Real) -> Seq<char> {
    if at_bound(v) {
        "参数贴近映射边界，可能数据不足；"@
    } else {
        ""@
    }
}

/// The standard error of the `i`-th parameter of the curve.
pub open spec fn param_error<M: Fn(Call) -> Real>(
    math: M,
    model: MasterModel,
    m: Seq<Real>,
    cov: Seq<Seq<Real>>,
    i: int,
) -> Option<Real> {
    let (lo, up) = model.bounds_of()[i];
    if row_finite(cov[0]) {
        Some(mapped_error(math, fsub(up, lo), fdiv(fsub(m[i], lo), fsub(up, lo)), cov[i][i]))
    } else {
        None
    }
}

/// The report on the parameters of the curve.
pub open spec fn params_are<M: Fn(Call) -> Real>(
    math: M,
    model: MasterModel,
    m: Seq<Real>,
    u: Seq<Real>,
    cov: Seq<Seq<Real>>,
    params: Seq<ParamReport>,
) -> bool {
    &&& params.len() == 4
    &&& forall|i: int|
        0 <= i < 4 ==> param_is(
            #[trigger] params[i],
            model.names()[i],
            m[i],
            param_error(math, model, m, cov, i),
            bound_note(u[i]),
        )
}

/// The warnings on the first `k` parameters.
pub open spec fn bound_warnings(model: MasterModel, u: Seq<Real>, k: nat) -> Seq<Seq<char>>
    decreases k,
{
    if k == 0 {
        Seq::empty()
    } else {
        bound_warnings(model, u, (k - 1) as nat) + given_if(
            at_bound(u[k - 1]),
            "参数 "@ + model.names()[k - 1] + " 靠近边界，边界约束活跃"@,
        )
    }
}

pub fn params_out<M: Fn(Call) -> Real>(
    math: &M,
    model: MasterModel,
    m: &Vec<Real>,
    u: &Vec<Real>,
    cov: &Vec<Vec<Real>>,
    warnings: &mut Vec<String>,
) -> (r: Vec<ParamReport>)
    requires
        is_math(*math),
        m@.len() == 4,
        u@.len() >= 5,
        square(rows(cov@), u@.len()),
    ensures
        params_are(*math, model, m@, u@, rows(cov@), r@),
        views(final(warnings)@) == views(old(warnings)@) + bound_warnings(model, u@, 4),
{
    let names: Vec<String> = model.master_names();
    let bnds: Vec<(Real, Real)> = model.bounds();
    let ghost given = views(warnings@);
    proof {
        assert(rows(cov@).len() == u@.len());
        assert(rows(cov@)[0].len() == u@.len());
        assert(views(warnings@) =~= given + bound_warnings(model, u@, 0));
    }
    let finite: bool = is_row_finite(&cov[0]);
    let mut params: Vec<ParamReport> = Vec::new();
    let mut i: usize = 0;
    while i < 4
        invariant
            is_math(*math),
            m@.len() == 4,
            u@.len() >= 5,
            square(rows(cov@), u@.len()),
            rows(cov@).len() == u@.len(),
            views(names@) == model.names(),
            names@.len() == 4,
            bnds@ == model.bounds_of(),
            bnds@.len() == 4,
            finite == row_finite(rows(cov@)[0]),
            i <= 4,
            params@.len() == i,
            forall|k: int|
                0 <= k < i ==> param_is(
                    #[trigger] params@[k],
                    model.names()[k],
                    m@[k],
                    param_error(*math, model, m@, rows(cov@), k),
                    bound_note(u@[k]),
                ),
            views(warnings@) == given + bound_warnings(model, u@, i as nat),
        decreases 4 - i,
    {
        proof {
            assert(rows(cov@)[i as int].len() == u@.len());
            assert(views(names@)[i as int] == names@[i as int]@);
        }
        let (lo, up) = bnds[i];
        let se: Option<Real> = if finite {
            let p: Real = m[i].minus(lo).over(up.minus(lo));
            Some(map_error(math, up.minus(lo), p, cov[i][i]))
        } else {
            None
        };
        let near: bool = lit(NEAR_BOUND).lt(u[i].abs());
        let note: String = if near {
            "参数贴近映射边界，可能数据不足；".to_owned()
        } else {
            "".to_owned()
        };
        let head: String = cat("参数 ", names[i].as_str());
        push_if(warnings, near, cat(head.as_str(), " 靠近边界，边界约束活跃").as_str());
        proof {
            assert(views(warnings@) =~= given + bound_warnings(model, u@, (i + 1) as nat));
        }
        params.push(ParamReport { name: names[i].clone(), value: m[i], se, note });
        i = i + 1;
    }
    params
}

// ---- offsets ----

/// The report on the offset of the `i`-th heat.
pub open spec fn offset_is<M: Fn(Call) -> Real, S: Fn(Print) -> String>(
    math: M,
    show: S,
    plan: Plan,
    u: Seq<Real>,
    cov: Seq<Seq<Real>>,
    i: int,
    r: ParamReport,
) -> bool {
    let name = "heat_bias["@ + plan.heats[i] + "]"@;
    if i == 0 {
        param_is(r, name, lit(ZERO), None, "基准炉次（固定为 0）"@)
    } else {
        let b = plan.offset(math, u, i);
        param_is(
            r,
            name,
            b,
            if row_finite(cov[0]) {
                Some(
                    mapped_error(
                        math,
                        lit(FOUR),
                        fdiv(fadd(b, lit(TWO)), lit(FOUR)),
                        cov[4 + i - 1][4 + i - 1],
                    ),
                )
            } else {
                None
            },
            "相对基准炉次 "@ + plan.heats[0] + " 的 log10(h) 偏移，岭收缩 λ="@ + printed(
                show,
                Print::Plain(plan.shrink),
            ),
        )
    }
}

pub fn offsets_out<M: Fn(Call) -> Real, S: Fn(Print) -> String>(
    math: &M,
    show: &S,
    prob: &Problem,
    offs: &Vec<Real>,
    u: &Vec<Real>,
    cov: &Vec<Vec<Real>>,
) -> (r: Vec<ParamReport>)
    requires
        is_math(*math),
        is_printer(*show),
        prob.well_formed(),
        u@.len() == prob.plan().dimensions(),
        offs@ == prob.plan().offsets(*math, u@),
        offs@.len() == prob.heats@.len(),
        square(rows(cov@), u@.len()),
    ensures
        r@.len() == prob.heats@.len(),
        forall|i: int|
            0 <= i < r@.len() ==> offset_is(
                *math,
                *show,
                prob.plan(),
                u@,
                rows(cov@),
                i,
                #[trigger] r@[i],
            ),
{
    let ghost plan = prob.plan();
    proof {
        assert(plan.heats.len() == prob.heats@.len());
        assert(rows(cov@).len() == u@.len());
        assert(rows(cov@)[0].len() == u@.len());
    }
    let finite: bool = is_row_finite(&cov[0]);
    let mut out: Vec<ParamReport> = Vec::new();
    let mut i: usize = 0;
    while i < prob.heats.len()
        invariant
            is_math(*math),
            is_printer(*show),
            prob.well_formed(),
            plan == prob.plan(),
            plan.heats.len() == prob.heats@.len(),
            u@.len() == plan.dimensions(),
            offs@ == plan.offsets(*math, u@),
            offs@.len() == prob.heats@.len(),
            square(rows(cov@), u@.len()),
            rows(cov@).len() == u@.len(),
            finite == row_finite(rows(cov@)[0]),
            i <= prob.heats@.len(),
            out@.len() == i,
            forall|k: int|
                0 <= k < i ==> offset_is(
                    *math,
                    *show,
                    plan,
                    u@,
                    rows(cov@),
                    k,
                    #[trigger] out@[k],
                ),
        decreases prob.heats@.len() - i,
    {
        proof {
            assert(plan.heats[i as int] == prob.heats@[i as int]@);
            assert(plan.heats[0] == prob.heats@[0]@);
            assert(offs@[i as int] == plan.offset(*math, u@, i as int));
        }
        let name: String = cat(cat("heat_bias[", prob.heats[i].as_str()).as_str(), "]");
        if i == 0 {
            out.push(
                ParamReport {
                    name,
                    value: lit(ZERO),
                    se: None,
                    note: "基准炉次（固定为 0）".to_owned(),
                },
            );
        } else {
            let ui: usize = prob.n_master + i - 1;
            proof {
                assert(rows(cov@)[ui as int].len() == u@.len());
            }
            let b: Real = offs[i];
            let se: Option<Real> = if finite {
                let p: Real = b.plus(lit(TWO)).over(lit(FOUR));
                Some(map_error(math, lit(FOUR), p, cov[ui][ui]))
            } else {
                None
            };
            let head: String = cat("相对基准炉次 ", prob.heats[0].as_str());
            let lambda: String = print(show, Print::Plain(prob.shrink));
            let note: String = cat(
                cat(head.as_str(), " 的 log10(h) 偏移，岭收缩 λ=").as_str(),
                lambda.as_str(),
            );
            out.push(ParamReport { name, value: b, se, note });
        }
        i = i + 1;
    }
    out
}

// ---- counts ----

/// The number of the first `k` specimens with an outcome.
pub open spec fn outcomes(specs: Seq<Specimen>, word: Seq<char>, k: nat) -> nat
    decreases k,
{
    if k == 0 {
        0
    } else {
        outcomes(specs, word, (k - 1) as nat) + if specs[k - 1].outcome@ == word {
            1nat
        } else {
            0nat
        }
    }
}

/// The number of the first `k` specimens of variable load.
pub open spec fn variables(specs: Seq<Specimen>, k: nat) -> nat
    decreases k,
{
    if k == 0 {
        0
    } else {
        variables(specs, (k - 1) as nat) + if specs[k - 1].variable {
            1nat
        } else {
            0nat
        }
    }
}

pub fn count_outcomes(refs: &Vec<&Specimen>, word: &str) -> (r: usize)
    ensures
        r == outcomes(referred(refs@), word@, refs@.len()),
{
    let mut n: usize = 0;
    let mut i: usize = 0;
    while i < refs.len()
        invariant
            i <= refs@.len(),
            n <= i,
            n == outcomes(referred(refs@), word@, i as nat),
        decreases refs@.len() - i,
    {
        if same(refs[i].outcome.as_str(), word) {
            n = n + 1;
        }
        i = i + 1;
    }
    n
}

pub fn count_variables(refs: &Vec<&Specimen>) -> (r: usize)
    ensures
        r == variables(referred(refs@), refs@.len()),
{
    let mut n: usize = 0;
    let mut i: usize = 0;
    while i < refs.len()
        invariant
            i <= refs@.len(),
            n <= i,
            n == variables(referred(refs@), i as nat),
        decreases refs@.len() - i,
    {
        if refs[i].variable {
            n = n + 1;
        }
        i = i + 1;
    }
    n
}

// ---- the envelope ----

/// The temperature of a segment in Celsius.
pub open spec fn celsius(g: Segment) -> Real {
    fsub(g.temp_kelvin, lit(ICE_POINT))
}

pub fn seg_temp(g: &Segment) -> (r: Real)
    ensures
        r == celsius(*g),
{
    g.temp_kelvin.minus(lit(ICE_POINT))
}

/// The segments of the first `k` specimens.
pub open spec fn all_segments(specs: Seq<Specimen>, k: nat) -> Seq<Segment>
    decreases k,
{
    if k == 0 {
        Seq::empty()
    } else {
        all_segments(specs, (k - 1) as nat) + specs[k - 1].segments@
    }
}

pub open spec fn segment_temps(segs: Seq<Segment>) -> Seq<Real> {
    segs.map_values(|g: Segment| celsius(g))
}

pub open spec fn segment_stresses(segs: Seq<Segment>) -> Seq<Real> {
    segs.map_values(|g: Segment| g.stress_mpa)
}

/// The first temperatures of the specimens in tenths of a degree.
pub open spec fn tenths(specs: Seq<Specimen>) -> Seq<int> {
    specs.map_values(|s: Specimen| to_integer(fmul(celsius(s.segments@[0]), lit(TEN))))
}

/// The number of different values among the first `k`.
pub open spec fn distinct(v: Seq<int>, k: nat) -> nat
    decreases k,
{
    if k == 0 {
        0
    } else {
        distinct(v, (k - 1) as nat) + if v.take(k - 1).contains(v[k - 1]) {
            0nat
        } else {
            1nat
        }
    }
}

/// The range of the segments, the heats and the number of different temperatures.
pub open spec fn envelope_is(specs: Seq<Specimen>, heats: Seq<Seq<char>>, e: Envelope) -> bool {
    let segs = all_segments(specs, specs.len());
    &&& e.min_temp_c == least(segment_temps(segs), segs.len())
    &&& e.max_temp_c == greatest(segment_temps(segs), segs.len())
    &&& e.min_stress_mpa == least(segment_stresses(segs), segs.len())
    &&& e.max_stress_mpa == greatest(segment_stresses(segs), segs.len())
    &&& views(e.heats@) == heats
    &&& e.n_temps == distinct(tenths(specs), specs.len())
}

fn collect(refs: &Vec<&Specimen>) -> (r: (Vec<Real>, Vec<Real>))
    ensures
        ({
            let segs = all_segments(referred(refs@), refs@.len());
            r.0@ == segment_temps(segs) && r.1@ == segment_stresses(segs)
        }),
{
    let mut t: Vec<Real> = Vec::new();
    let mut s: Vec<Real> = Vec::new();
    let ghost specs = referred(refs@);
    proof {
        assert(t@ =~= segment_temps(all_segments(specs, 0)));
        assert(s@ =~= segment_stresses(all_segments(specs, 0)));
    }
    let mut i: usize = 0;
    while i < refs.len()
        invariant
            specs == referred(refs@),
            i <= refs@.len(),
            t@ == segment_temps(all_segments(specs, i as nat)),
            s@ == segment_stresses(all_segments(specs, i as nat)),
        decreases refs@.len() - i,
    {
        let p: &Specimen = refs[i];
        let ghost before = all_segments(specs, i as nat);
        let mut j: usize = 0;
        proof {
            assert(before + p.segments@.take(0) =~= before);
        }
        while j < p.segments.len()
            invariant
                j <= p.segments@.len(),
                t@ == segment_temps(before + p.segments@.take(j as int)),
                s@ == segment_stresses(before + p.segments@.take(j as int)),
            decreases p.segments@.len() - j,
        {
            t.push(seg_temp(&p.segments[j]));
            s.push(p.segments[j].stress_mpa);
            proof {
                assert(before + p.segments@.take(j + 1) =~= (before + p.segments@.take(
                    j as int,
                )).push(p.segments@[j as int]));
                assert(t@ =~= segment_temps(before + p.segments@.take(j + 1)));
                assert(s@ =~= segment_stresses(before + p.segments@.take(j + 1)));
            }
            j = j + 1;
        }
        proof {
            assert(p.segments@.take(j as int) =~= p.segments@);
            assert(specs[i as int] == *p);
        }
        i = i + 1;
    }
    (t, s)
}

fn count_temps(refs: &Vec<&Specimen>) -> (r: usize)
    requires
        forall|i: int| 0 <= i < refs@.len() ==> (#[trigger] refs@[i]).segments@.len() > 0,
    ensures
        r == distinct(tenths(referred(refs@)), refs@.len()),
{
    let ghost want = tenths(referred(refs@));
    let mut seen: Vec<i64> = Vec::new();
    let mut n: usize = 0;
    let mut i: usize = 0;
    while i < refs.len()
        invariant
            forall|i: int| 0 <= i < refs@.len() ==> (#[trigger] refs@[i]).segments@.len() > 0,
            want == tenths(referred(refs@)),
            i <= refs@.len(),
            n <= i,
            n == distinct(want, i as nat),
            seen@.len() == i,
            forall|k: int| 0 <= k < i ==> #[trigger] seen@[k] == want[k],
        decreases refs@.len() - i,
    {
        let v: i64 = seg_temp(&refs[i].segments[0]).times(lit(TEN)).to_i64();
        proof {
            assert(referred(refs@)[i as int] == *refs@[i as int]);
            assert(want[i as int] == v);
        }
        let mut found: bool = false;
        let mut j: usize = 0;
        while j < seen.len()
            invariant
                j <= seen@.len(),
                seen@.len() == i,
                i < refs@.len(),
                want.len() == refs@.len(),
                forall|k: int| 0 <= k < i ==> #[trigger] seen@[k] == want[k],
                found == exists|k: int| 0 <= k < j && #[trigger] seen@[k] == v,
            decreases seen@.len() - j,
        {
            if seen[j] == v {
                found = true;
            }
            j = j + 1;
        }
        proof {
            let front = want.take(i as int);
            assert(found == front.contains(v as int)) by {
                if found {
                    let k = choose|k: int| 0 <= k < j && #[trigger] seen@[k] == v;
                    assert(front[k] == v);
                }
                if front.contains(v as int) {
                    let k = choose|k: int| 0 <= k < front.len() && front[k] == v;
                    assert(seen@[k] == v);
                }
            }
        }
        if !found {
            n = n + 1;
        }
        seen.push(v);
        i = i + 1;
    }
    n
}

pub fn envelope(refs: &Vec<&Specimen>, heats: Vec<String>) -> (r: Envelope)
    requires
        forall|i: int| 0 <= i < refs@.len() ==> (#[trigger] refs@[i]).segments@.len() > 0,
    ensures
        envelope_is(referred(refs@), views(heats@), r),
{
    let (t, s): (Vec<Real>, Vec<Real>) = collect(refs);
    Envelope {
        min_temp_c: least_of(&t),
        max_temp_c: greatest_of(&t),
        min_stress_mpa: least_of(&s),
        max_stress_mpa: greatest_of(&s),
        heats,
        n_temps: count_temps(refs),
    }
}

// ---- what the censored specimens add ----

/// The rows of censored specimens among the first `k`.
pub open spec fn censored_rows(rows: Seq<ResidualRow>, k: nat) -> Seq<ResidualRow>
    decreases k,
{
    if k == 0 {
        Seq::empty()
    } else if rows[k - 1].censored {
        censored_rows(rows, (k - 1) as nat).push(rows[k - 1])
    } else {
        censored_rows(rows, (k - 1) as nat)
    }
}

pub open spec fn entry_is(r: ResidualRow, e: CensorEntry) -> bool {
    &&& e.specimen_id@ == r.specimen_id@
    &&& e.meaning@ == "右删失：仅知寿命 > 截止时间，绝不在截止时刻当作断裂"@
    &&& e.log_likelihood == rounded_at(r.contribution, lit(MILLION))
    &&& e.survival_probability_at_stop == r.censor_tail_probability
    &&& e.cumulative_damage == r.cumulative_damage
}

/// One entry for each row of a censored specimen, in their order.
pub open spec fn entries_are(rows: Seq<ResidualRow>, entries: Seq<CensorEntry>) -> bool {
    let c = censored_rows(rows, rows.len());
    &&& entries.len() == c.len()
    &&& forall|i: int| 0 <= i < c.len() ==> entry_is(c[i], #[trigger] entries[i])
}

pub fn censor_entries(rows: &Vec<ResidualRow>) -> (r: Vec<CensorEntry>)
    ensures
        entries_are(rows@, r@),
{
    let mut out: Vec<CensorEntry> = Vec::new();
    let mut i: usize = 0;
    while i < rows.len()
        invariant
            i <= rows@.len(),
            out@.len() == censored_rows(rows@, i as nat).len(),
            forall|k: int|
                0 <= k < out@.len() ==> entry_is(
                    censored_rows(rows@, i as nat)[k],
                    #[trigger] out@[k],
                ),
        decreases rows@.len() - i,
    {
        let r: &ResidualRow = &rows[i];
        if r.censored {
            out.push(
                CensorEntry {
                    specimen_id: r.specimen_id.clone(),
                    meaning: "右删失：仅知寿命 > 截止时间，绝不在截止时刻当作断裂".to_owned(),
                    log_likelihood: round_at(r.contribution, lit(MILLION)),
                    survival_probability_at_stop: r.censor_tail_probability,
                    cumulative_damage: r.cumulative_damage,
                },
            );
        }
        i = i + 1;
    }
    out
}

} // verus!
