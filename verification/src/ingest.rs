//! Validation of samples on their way into the store.
//!
//! A temperature is taken only with an explicit unit, Celsius or Kelvin, and is
//! converted to the absolute scale here; a missing or unknown unit is refused.
use vstd::prelude::*;
use crate::host::{is_printer, print, printed, Print};
use crate::number::{fle, flt, lit, Real};
use crate::number::arith::{fadd, fsub};
use crate::number::consts::ZERO;
use crate::text::{cat, decimal, position, same, show_int, to_upper, trim, trimmed, upper, views,
    lemma_index_in};

verus! {

/// 273.15, the ice point in kelvin.
pub const ICE_POINT: u64 = 0x4071_1266_6666_6666;

/// -273.15
pub const CELSIUS_LOW: u64 = 0xc071_1266_6666_6666;

/// 1200
pub const CELSIUS_HIGH: u64 = 0x4092_c000_0000_0000;

/// 200
pub const KELVIN_LOW: u64 = 0x4069_0000_0000_0000;

/// 2000
pub const KELVIN_HIGH: u64 = 0x409f_4000_0000_0000;

#[derive(Clone, Debug)]
pub struct SegmentIn {
    pub temp_value: Real,
    pub temp_unit: String,
    pub stress_mpa: Real,
    pub hours_h: Real,
}

#[derive(Clone, Debug)]
pub struct Sample {
    pub id: String,
    pub heat: String,
    pub criterion: String,
    /// constant | variable
    pub load_kind: String,
    pub temp_value: Option<Real>,
    pub temp_unit: Option<String>,
    pub stress_mpa: Option<Real>,
    pub time_h: Real,
    /// fractured | censored
    pub status: String,
    pub segments: Vec<SegmentIn>,
    pub note: String,
}

#[derive(Clone, Copy, Debug)]
pub struct StoredSegment {
    pub temp_c: Real,
    pub stress_mpa: Real,
    pub hours_h: Real,
}

#[derive(Clone, Debug)]
pub struct ValidSample {
    pub id: String,
    pub heat: String,
    pub criterion: String,
    pub load_kind: String,
    pub temp_c: Option<Real>,
    pub temp_k: Option<Real>,
    pub temp_unit: Option<String>,
    pub temp_value: Option<Real>,
    pub stress_mpa: Option<Real>,
    pub time_h: Real,
    pub status: String,
    pub segments: Vec<StoredSegment>,
    pub note: String,
}

/// A result with the text of its error.
pub open spec fn outcome<T>(r: Result<T, String>) -> Result<T, Seq<char>> {
    match r {
        Ok(v) => Ok(v),
        Err(e) => Err(e@),
    }
}

/// A finite number above zero.
pub open spec fn positive(x: Real) -> bool {
    x.finite() && flt(lit(ZERO), x)
}

pub fn is_positive(x: Real) -> (r: bool)
    ensures
        r == positive(x),
{
    x.is_finite() && lit(ZERO).lt(x)
}

pub open spec fn within(low: Real, x: Real, high: Real) -> bool {
    fle(low, x) && fle(x, high)
}

pub open spec fn is_celsius(unit: Seq<char>) -> bool {
    unit == "C"@ || unit == "°C"@ || unit == "CELSIUS"@ || unit == "DEGC"@
}

pub open spec fn is_kelvin(unit: Seq<char>) -> bool {
    unit == "K"@ || unit == "KELVIN"@
}

/// The Celsius temperature that a value with a unit stands for, or why it is refused.
pub open spec fn celsius_of<S: Fn(Print) -> String>(
    show: S,
    value: Real,
    unit: Option<Seq<char>>,
    ctx: Seq<char>,
) -> Result<Real, Seq<char>> {
    match unit {
        None => Err(ctx + ": 缺少温度单位，禁止在 C/K 之间猜测"@),
        Some(given) => {
            let u = upper(trimmed(given));
            if is_celsius(u) {
                if within(lit(CELSIUS_LOW), value, lit(CELSIUS_HIGH)) {
                    Ok(value)
                } else {
                    Err(ctx + ": 摄氏度 "@ + printed(show, Print::Plain(value)) + " 超出合理范围"@)
                }
            } else if is_kelvin(u) {
                if within(lit(KELVIN_LOW), value, lit(KELVIN_HIGH)) {
                    Ok(fsub(value, lit(ICE_POINT)))
                } else {
                    Err(
                        ctx + ": 开尔文 "@ + printed(show, Print::Plain(value))
                            + " 超出合理范围（疑似漏写摄氏度单位）"@,
                    )
                }
            } else {
                Err(ctx + ": 无法识别的温度单位 '"@ + u + "'（仅接受 C 或 K）"@)
            }
        },
    }
}

pub open spec fn unit_view(unit: Option<&str>) -> Option<Seq<char>> {
    match unit {
        Some(u) => Some(u@),
        None => None,
    }
}

/// The Celsius temperature that `value` in `unit` stands for. Without a unit, with an
/// unknown one, or outside the plausible range, the temperature is refused.
pub fn to_celsius<S: Fn(Print) -> String>(value: Real, unit: Option<&str>, ctx: &str, show: &S) -> (r:
    Result<Real, String>)
    requires
        is_printer(*show),
    ensures
        outcome(r) == celsius_of(*show, value, unit_view(unit), ctx@),
{
    let given: &str = match unit {
        Some(u) => u,
        None => {
            return Err(cat(ctx, ": 缺少温度单位，禁止在 C/K 之间猜测"));
        },
    };
    let upper_unit: String = to_upper(trim(given));
    let u: &str = upper_unit.as_str();
    if same(u, "C") || same(u, "°C") || same(u, "CELSIUS") || same(u, "DEGC") {
        if lit(CELSIUS_LOW).le(value) && value.le(lit(CELSIUS_HIGH)) {
            Ok(value)
        } else {
            let shown: String = print(show, Print::Plain(value));
            Err(cat(cat(cat(ctx, ": 摄氏度 ").as_str(), shown.as_str()).as_str(), " 超出合理范围"))
        }
    } else if same(u, "K") || same(u, "KELVIN") {
        if lit(KELVIN_LOW).le(value) && value.le(lit(KELVIN_HIGH)) {
            Ok(value.minus(lit(ICE_POINT)))
        } else {
            let shown: String = print(show, Print::Plain(value));
            Err(
                cat(
                    cat(cat(ctx, ": 开尔文 ").as_str(), shown.as_str()).as_str(),
                    " 超出合理范围（疑似漏写摄氏度单位）",
                ),
            )
        }
    } else {
        Err(cat(cat(cat(ctx, ": 无法识别的温度单位 '").as_str(), u).as_str(), "'（仅接受 C 或 K）"))
    }
}

/// How the `i`-th segment of a sample is called in messages.
pub open spec fn segment_name(id: Seq<char>, i: int) -> Seq<char> {
    id + " 段"@ + decimal(i)
}

/// Why a segment is refused, if it is.
pub open spec fn segment_refusal<S: Fn(Print) -> String>(show: S, g: SegmentIn, ctx: Seq<char>) -> Option<
    Seq<char>,
> {
    match celsius_of(show, g.temp_value, Some(g.temp_unit@), ctx) {
        Err(e) => Some(e),
        Ok(_) => if !positive(g.stress_mpa) {
            Some(ctx + ": 应力必须为正"@)
        } else if !positive(g.hours_h) {
            Some(ctx + ": 段历时必须为正"@)
        } else {
            None
        },
    }
}

/// Why the segments from the `i`-th on are refused, if they are: the first refusal.
pub open spec fn segments_refusal<S: Fn(Print) -> String>(
    show: S,
    id: Seq<char>,
    segs: Seq<SegmentIn>,
    i: int,
) -> Option<
    Seq<char>,
>
    decreases segs.len() - i,
{
    if i < 0 || i >= segs.len() {
        None
    } else {
        match segment_refusal(show, segs[i], segment_name(id, i)) {
            Some(e) => Some(e),
            None => segments_refusal(show, id, segs, i + 1),
        }
    }
}

pub open spec fn option_view(s: Option<String>) -> Option<Seq<char>> {
    match s {
        Some(t) => Some(t@),
        None => None,
    }
}

/// Why the load of a sample is refused, if it is.
pub open spec fn load_refusal<S: Fn(Print) -> String>(show: S, s: Sample) -> Option<Seq<char>> {
    let id = s.id@;
    if s.load_kind@ == "constant"@ {
        match s.temp_value {
            None => Some(id + ": 恒载样本缺少温度值"@),
            Some(tv) => match celsius_of(show, tv, option_view(s.temp_unit), id) {
                Err(e) => Some(e),
                Ok(_) => match s.stress_mpa {
                    None => Some(id + ": 恒载样本缺少应力"@),
                    Some(stress) => if positive(stress) {
                        None
                    } else {
                        Some(id + ": 应力必须为正"@)
                    },
                },
            },
        }
    } else if s.load_kind@ == "variable"@ {
        if s.segments@.len() == 0 {
            Some(id + ": 变载样本必须给出至少一个载荷段"@)
        } else {
            segments_refusal(show, id, s.segments@, 0)
        }
    } else {
        Some(id + ": load_kind 非法 '"@ + s.load_kind@ + "'"@)
    }
}

/// Why a sample is refused, if it is, where the ids in `known` are taken: the first of
/// the reasons in the order in which they are looked for.
pub open spec fn refusal<S: Fn(Print) -> String>(
    show: S,
    s: Sample,
    known: Seq<Seq<char>>,
) -> Option<Seq<char>> {
    let id = s.id@;
    if trimmed(id).len() == 0 {
        Some("样本 id 为空"@)
    } else if known.contains(id) {
        Some("样本 id 重复: "@ + id)
    } else if trimmed(s.heat@).len() == 0 {
        Some(id + ": 炉次 heat 为空"@)
    } else if trimmed(s.criterion@).len() == 0 {
        Some(id + ": 失效准则 criterion 为空"@)
    } else if s.status@ != "fractured"@ && s.status@ != "censored"@ {
        Some(id + ": status 必须为 fractured 或 censored，实际为 "@ + s.status@)
    } else if !positive(s.time_h) {
        Some(id + ": time_h 必须为正数（删失样本也只给截止时间）"@)
    } else {
        load_refusal(show, s)
    }
}

/// What is stored of a segment.
pub open spec fn stored_segment<S: Fn(Print) -> String>(
    show: S,
    g: SegmentIn,
    t: StoredSegment,
    ctx: Seq<char>,
) -> bool {
    &&& celsius_of(show, g.temp_value, Some(g.temp_unit@), ctx) == Ok::<Real, Seq<char>>(t.temp_c)
    &&& t.stress_mpa == g.stress_mpa
    &&& t.hours_h == g.hours_h
}

/// What is stored of an accepted sample: its own words and numbers, and the temperature
/// on both scales where the load is constant, or every segment where it is not.
pub open spec fn stored<S: Fn(Print) -> String>(show: S, s: Sample, v: ValidSample) -> bool {
    &&& v.id == s.id
    &&& v.heat == s.heat
    &&& v.criterion == s.criterion
    &&& v.load_kind == s.load_kind
    &&& option_view(v.temp_unit) == option_view(s.temp_unit)
    &&& v.temp_value == s.temp_value
    &&& v.stress_mpa == s.stress_mpa
    &&& v.time_h == s.time_h
    &&& v.status == s.status
    &&& v.note == s.note
    &&& if s.load_kind@ == "constant"@ {
        &&& v.segments@.len() == 0
        &&& v.temp_c is Some && v.temp_k is Some
        &&& celsius_of(show, s.temp_value->0, option_view(s.temp_unit), s.id@)
            == Ok::<Real, Seq<char>>(v.temp_c->0)
        &&& v.temp_k->0 == fadd(v.temp_c->0, lit(ICE_POINT))
    } else {
        &&& v.temp_c is None && v.temp_k is None
        &&& v.segments@.len() == s.segments@.len()
        &&& forall|i: int|
            0 <= i < s.segments@.len() ==> stored_segment(
                show,
                s.segments@[i],
                #[trigger] v.segments@[i],
                segment_name(s.id@, i),
            )
    }
}

fn colon(id: &str, words: &str) -> (r: String)
    ensures
        r@ == id@ + words@,
{
    cat(id, words)
}

/// Converts the segments, or says why the first bad one is refused.
fn store_segments<S: Fn(Print) -> String>(id: &str, segs: &Vec<SegmentIn>, show: &S) -> (r: Result<
    Vec<StoredSegment>,
    String,
>)
    requires
        is_printer(*show),
    ensures
        match r {
            Ok(v) => segments_refusal(*show, id@, segs@, 0) is None && v@.len() == segs@.len()
                && forall|i: int|
                0 <= i < segs@.len() ==> stored_segment(
                    *show,
                    segs@[i],
                    #[trigger] v@[i],
                    segment_name(id@, i),
                ),
            Err(e) => segments_refusal(*show, id@, segs@, 0) == Some(e@),
        },
{
    let mut out: Vec<StoredSegment> = Vec::new();
    let mut i: usize = 0;
    while i < segs.len()
        invariant
            is_printer(*show),
            i <= segs.len(),
            out@.len() == i,
            segments_refusal(*show, id@, segs@, 0) == segments_refusal(*show, id@, segs@, i as int),
            forall|k: int|
                0 <= k < i ==> stored_segment(
                    *show,
                    segs@[k],
                    #[trigger] out@[k],
                    segment_name(id@, k),
                ),
        decreases segs.len() - i,
    {
        let g: &SegmentIn = &segs[i];
        let ctx: String = cat(cat(id, " 段").as_str(), show_int(i as u64).as_str());
        let c: Real = match to_celsius(g.temp_value, Some(g.temp_unit.as_str()), ctx.as_str(), show) {
            Ok(c) => c,
            Err(e) => {
                return Err(e);
            },
        };
        if !is_positive(g.stress_mpa) {
            return Err(colon(ctx.as_str(), ": 应力必须为正"));
        }
        if !is_positive(g.hours_h) {
            return Err(colon(ctx.as_str(), ": 段历时必须为正"));
        }
        out.push(StoredSegment { temp_c: c, stress_mpa: g.stress_mpa, hours_h: g.hours_h });
        i = i + 1;
    }
    Ok(out)
}

/// Celsius and Kelvin of a constant load, or why it is refused.
fn store_constant<S: Fn(Print) -> String>(s: &Sample, show: &S) -> (r: Result<(Real, Real), String>)
    requires
        is_printer(*show),
        s.load_kind@ == "constant"@,
    ensures
        match r {
            Ok(t) => load_refusal(*show, *s) is None && celsius_of(
                *show,
                s.temp_value->0,
                option_view(s.temp_unit),
                s.id@,
            ) == Ok::<Real, Seq<char>>(t.0) && t.1 == fadd(t.0, lit(ICE_POINT)),
            Err(e) => load_refusal(*show, *s) == Some(e@),
        },
{
    let tv: Real = match s.temp_value {
        Some(v) => v,
        None => {
            return Err(colon(s.id.as_str(), ": 恒载样本缺少温度值"));
        },
    };
    let unit: Option<&str> = match &s.temp_unit {
        Some(u) => Some(u.as_str()),
        None => None,
    };
    let c: Real = match to_celsius(tv, unit, s.id.as_str(), show) {
        Ok(c) => c,
        Err(e) => {
            return Err(e);
        },
    };
    let stress: Real = match s.stress_mpa {
        Some(v) => v,
        None => {
            return Err(colon(s.id.as_str(), ": 恒载样本缺少应力"));
        },
    };
    if !is_positive(stress) {
        return Err(colon(s.id.as_str(), ": 应力必须为正"));
    }
    Ok((c, c.plus(lit(ICE_POINT))))
}

fn clone_unit(u: &Option<String>) -> (r: Option<String>)
    ensures
        option_view(r) == option_view(*u),
{
    match u {
        Some(t) => Some(t.clone()),
        None => None,
    }
}

/// Accepts a sample, or says why it is refused. The id of every sample that has one, and
/// a new one, is taken from then on, also where the sample is refused for another reason.
pub fn validate<S: Fn(Print) -> String>(s: &Sample, known: &mut Vec<String>, show: &S) -> (r: Result<
    ValidSample,
    String,
>)
    requires
        is_printer(*show),
    ensures
        match r {
            Ok(v) => refusal(*show, *s, views(old(known)@)) is None && stored(*show, *s, v),
            Err(e) => refusal(*show, *s, views(old(known)@)) == Some(e@),
        },
        final(known)@ == (if trimmed(s.id@).len() == 0 || views(old(known)@).contains(s.id@) {
            old(known)@
        } else {
            old(known)@.push(s.id)
        }),
{
    let id: &str = s.id.as_str();
    if trim(id).is_empty() {
        return Err("样本 id 为空".to_owned());
    }
    let found: Option<usize> = position(known, id);
    proof {
        lemma_index_in(views(known@), id@);
    }
    if found.is_some() {
        return Err(cat("样本 id 重复: ", id));
    }
    known.push(s.id.clone());
    if trim(s.heat.as_str()).is_empty() {
        return Err(colon(id, ": 炉次 heat 为空"));
    }
    if trim(s.criterion.as_str()).is_empty() {
        return Err(colon(id, ": 失效准则 criterion 为空"));
    }
    if !same(s.status.as_str(), "fractured") && !same(s.status.as_str(), "censored") {
        return Err(
            cat(
                colon(id, ": status 必须为 fractured 或 censored，实际为 ").as_str(),
                s.status.as_str(),
            ),
        );
    }
    if !is_positive(s.time_h) {
        return Err(colon(id, ": time_h 必须为正数（删失样本也只给截止时间）"));
    }
    let mut segments: Vec<StoredSegment> = Vec::new();
    let mut temp_c: Option<Real> = None;
    let mut temp_k: Option<Real> = None;
    if same(s.load_kind.as_str(), "constant") {
        match store_constant(s, show) {
            Ok(t) => {
                temp_c = Some(t.0);
                temp_k = Some(t.1);
            },
            Err(e) => {
                return Err(e);
            },
        }
    } else if same(s.load_kind.as_str(), "variable") {
        if s.segments.len() == 0 {
            return Err(colon(id, ": 变载样本必须给出至少一个载荷段"));
        }
        match store_segments(id, &s.segments, show) {
            Ok(v) => {
                segments = v;
            },
            Err(e) => {
                return Err(e);
            },
        }
    } else {
        return Err(
            cat(cat(colon(id, ": load_kind 非法 '").as_str(), s.load_kind.as_str()).as_str(), "'"),
        );
    }
    Ok(
        ValidSample {
            id: s.id.clone(),
            heat: s.heat.clone(),
            criterion: s.criterion.clone(),
            load_kind: s.load_kind.clone(),
            temp_c,
            temp_k,
            temp_unit: clone_unit(&s.temp_unit),
            temp_value: s.temp_value,
            stress_mpa: s.stress_mpa,
            time_h: s.time_h,
            status: s.status.clone(),
            segments,
            note: s.note.clone(),
        },
    )
}

/// The ids of a list of samples.
pub open spec fn ids(samples: Seq<Sample>) -> Seq<Seq<char>> {
    samples.map_values(|s: Sample| s.id@)
}

/// Why a batch is refused from its `i`-th sample on, if it is: the first refusal, where
/// every sample before has been accepted.
pub open spec fn batch_refusal<S: Fn(Print) -> String>(
    show: S,
    samples: Seq<Sample>,
    i: int,
) -> Option<Seq<char>>
    decreases samples.len() - i,
{
    if i < 0 || i >= samples.len() {
        None
    } else {
        match refusal(show, samples[i], ids(samples.take(i))) {
            Some(e) => Some(e),
            None => batch_refusal(show, samples, i + 1),
        }
    }
}

/// Accepts a batch as a whole, in its order, or refuses it for its first bad sample.
pub fn validate_all<S: Fn(Print) -> String>(
    samples: &Vec<Sample>,
    show: &S,
) -> (r: Result<Vec<ValidSample>, String>)
    requires
        is_printer(*show),
    ensures
        match r {
            Ok(v) => batch_refusal(*show, samples@, 0) is None && v@.len() == samples@.len()
                && forall|i: int|
                0 <= i < samples@.len() ==> stored(*show, samples@[i], #[trigger] v@[i]),
            Err(e) => batch_refusal(*show, samples@, 0) == Some(e@),
        },
{
    let mut known: Vec<String> = Vec::new();
    let mut out: Vec<ValidSample> = Vec::new();
    let mut i: usize = 0;
    proof {
        assert(views(known@) =~= ids(samples@.take(0)));
    }
    while i < samples.len()
        invariant
            is_printer(*show),
            i <= samples.len(),
            out@.len() == i,
            views(known@) == ids(samples@.take(i as int)),
            batch_refusal(*show, samples@, 0) == batch_refusal(*show, samples@, i as int),
            forall|k: int| 0 <= k < i ==> stored(*show, samples@[k], #[trigger] out@[k]),
        decreases samples.len() - i,
    {
        let ghost before = known@;
        match validate(&samples[i], &mut known, show) {
            Ok(v) => {
                out.push(v);
            },
            Err(e) => {
                return Err(e);
            },
        }
        proof {
            assert(known@ == before.push(samples@[i as int].id));
            assert(views(known@) =~= views(before).push(samples@[i as int].id@));
            assert(ids(samples@.take(i + 1)) =~= ids(samples@.take(i as int)).push(
                samples@[i as int].id@,
            ));
        }
        i = i + 1;
    }
    Ok(out)
}

/// No sample of constant load is accepted without a temperature unit.
pub proof fn law_unit_is_required<S: Fn(Print) -> String>(show: S, s: Sample, known: Seq<Seq<char>>)
    requires
        s.load_kind@ == "constant"@,
        s.temp_unit is None,
    ensures
        refusal(show, s, known) is Some,
{
}

/// A temperature is taken only in a unit that names Celsius or Kelvin, and the two are
/// converted into each other by the ice point alone.
pub proof fn law_units<S: Fn(Print) -> String>(
    show: S,
    value: Real,
    unit: Option<Seq<char>>,
    ctx: Seq<char>,
)
    ensures
        match celsius_of(show, value, unit, ctx) {
            Ok(c) => unit is Some && (is_celsius(upper(trimmed(unit->0))) && c == value
                || is_kelvin(upper(trimmed(unit->0))) && c == fsub(value, lit(ICE_POINT))),
            Err(_) => true,
        },
        unit is None ==> celsius_of(show, value, unit, ctx) is Err,
        unit is Some && !is_celsius(upper(trimmed(unit->0))) && !is_kelvin(upper(trimmed(unit->0)))
            ==> celsius_of(show, value, unit, ctx) is Err,
{
}

/// The ids of an accepted batch are distinct, and none is blank.
pub proof fn law_accepted_ids_distinct<S: Fn(Print) -> String>(
    show: S,
    samples: Seq<Sample>,
    i: int,
    j: int,
)
    requires
        batch_refusal(show, samples, 0) is None,
        0 <= i < j < samples.len(),
    ensures
        samples[i].id@ != samples[j].id@,
        trimmed(samples[i].id@).len() > 0,
{
    lemma_batch_each(show, samples, 0, i);
    lemma_batch_each(show, samples, 0, j);
    let front = ids(samples.take(j));
    assert(front[i] == samples[i].id@);
    assert(front.contains(samples[i].id@));
}

proof fn lemma_batch_each<S: Fn(Print) -> String>(show: S, samples: Seq<Sample>, from: int, i: int)
    requires
        batch_refusal(show, samples, from) is None,
        0 <= from <= i < samples.len(),
    ensures
        refusal(show, samples[i], ids(samples.take(i))) is None,
    decreases i - from,
{
    if from < i {
        lemma_batch_each(show, samples, from + 1, i);
    }
}

/// What an accepted sample holds: a status of the two, a positive time and, by its load,
/// a positive stress or segments with positive stresses and durations.
pub proof fn law_accepted_is_sound<S: Fn(Print) -> String>(show: S, s: Sample, known: Seq<Seq<char>>)
    requires
        refusal(show, s, known) is None,
    ensures
        !known.contains(s.id@),
        s.status@ == "fractured"@ || s.status@ == "censored"@,
        positive(s.time_h),
        s.load_kind@ == "constant"@ || s.load_kind@ == "variable"@,
        s.load_kind@ == "constant"@ ==> s.stress_mpa is Some && positive(s.stress_mpa->0),
        s.load_kind@ != "constant"@ ==> s.segments@.len() > 0 && forall|i: int|
            0 <= i < s.segments@.len() ==> positive((#[trigger] s.segments@[i]).stress_mpa)
                && positive(s.segments@[i].hours_h),
{
    if s.load_kind@ != "constant"@ {
        assert forall|i: int| 0 <= i < s.segments@.len() implies positive(
            (#[trigger] s.segments@[i]).stress_mpa,
        ) && positive(s.segments@[i].hours_h) by {
            lemma_segment_each(show, s.id@, s.segments@, 0, i);
        }
    }
}

proof fn lemma_segment_each<S: Fn(Print) -> String>(
    show: S,
    id: Seq<char>,
    segs: Seq<SegmentIn>,
    from: int,
    i: int,
)
    requires
        segments_refusal(show, id, segs, from) is None,
        0 <= from <= i < segs.len(),
    ensures
        segment_refusal(show, segs[i], segment_name(id, i)) is None,
    decreases i - from,
{
    if from < i {
        lemma_segment_each(show, id, segs, from + 1, i);
    }
}

} // verus!
