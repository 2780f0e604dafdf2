//! Specimens and their validation.
//!
//! A temperature is taken only with its unit, which is never guessed. A specimen of
//! constant load has one segment; one of variable load has the segments that it was given,
//! whose durations add up to its time.
use vstd::prelude::*;
use crate::ingest::{is_positive, option_view, positive, CELSIUS_LOW, ICE_POINT};
use crate::linalg::{fsum, sum};
use crate::number::{fabs, fle, flt, lit, Real};
use crate::number::arith::{fadd, fsub};
use crate::number::consts::ZERO;
use crate::text::{cat, same, trim, trimmed};

verus! {

/// 1e-6, by which the durations of the segments may miss the time.
pub const DURATION_SLACK: u64 = 0x3eb0_c6f7_a0b5_ed8d;

/// What is wrong with a request.
#[derive(Clone, Debug)]
pub struct DomainError(pub String);

impl DomainError {
    pub fn message(&self) -> (r: &str)
        ensures
            r@ == self.0@,
    {
        self.0.as_str()
    }
}

/// The text that `Debug` gives for a string: in quotation marks, with escapes.
pub uninterp spec fn debug_text(s: Seq<char>) -> Seq<char>;

/// Formats a string by `<str as core::fmt::Debug>::fmt`. The text is named and not stated;
/// it depends on the string alone.
#[verifier::external_body]
pub(crate) fn quoted(s: &str) -> (r: String)
    ensures
        r@ == debug_text(s@),
{
    format!("{:?}", s)
}

#[derive(Clone, Copy, Debug)]
pub struct Segment {
    pub temp_kelvin: Real,
    pub stress_mpa: Real,
    pub duration_h: Real,
}

#[derive(Clone, Debug)]
pub struct Specimen {
    pub id: i64,
    pub specimen_id: String,
    pub heat: String,
    pub temp_kelvin: Real,
    pub temp_c: Real,
    pub stress_mpa: Option<Real>,
    pub time_h: Real,
    /// ruptured | censored
    pub outcome: String,
    pub criterion: String,
    pub variable: bool,
    pub segments: Vec<Segment>,
    pub note: Option<String>,
}

#[derive(Clone, Copy, Debug)]
pub struct SegmentIn {
    pub stress_mpa: Real,
    pub duration_h: Real,
}

#[derive(Clone, Debug)]
pub struct SpecimenIn {
    pub specimen_id: String,
    pub heat: String,
    pub temp_value: Real,
    pub temp_unit: Option<String>,
    pub stress_mpa: Option<Real>,
    pub time_h: Real,
    pub outcome: String,
    pub criterion: String,
    pub variable: bool,
    pub segments: Vec<SegmentIn>,
    pub note: Option<String>,
}

/// A temperature in kelvin, from a value and its unit.
pub open spec fn kelvin_of(value: Real, unit: Option<Seq<char>>) -> Result<Real, Seq<char>> {
    match unit {
        None => Err("缺少温度单位，拒绝猜测"@),
        Some(u) => if trimmed(u) == "C"@ {
            if !value.finite() || fle(value, lit(CELSIUS_LOW)) {
                Err("摄氏度非法"@)
            } else {
                Ok(fadd(value, lit(ICE_POINT)))
            }
        } else if trimmed(u) == "K"@ {
            if !value.finite() || fle(value, lit(ZERO)) {
                Err("开尔文非法"@)
            } else {
                Ok(value)
            }
        } else {
            Err("温度单位 "@ + debug_text(u) + " 不支持，仅支持 C/K"@)
        },
    }
}

fn to_kelvin(value: Real, unit: &Option<String>) -> (r: Result<Real, String>)
    ensures
        match r {
            Ok(k) => kelvin_of(value, option_view(*unit)) == Ok::<Real, Seq<char>>(k),
            Err(e) => kelvin_of(value, option_view(*unit)) == Err::<Real, Seq<char>>(e@),
        },
{
    match unit {
        None => Err("缺少温度单位，拒绝猜测".to_owned()),
        Some(u) => {
            let t: &str = trim(u.as_str());
            if same(t, "C") {
                if !value.is_finite() || value.le(lit(CELSIUS_LOW)) {
                    return Err("摄氏度非法".to_owned());
                }
                Ok(value.plus(lit(ICE_POINT)))
            } else if same(t, "K") {
                if !value.is_finite() || value.le(lit(ZERO)) {
                    return Err("开尔文非法".to_owned());
                }
                Ok(value)
            } else {
                let q: String = quoted(u.as_str());
                Err(cat(cat("温度单位 ", q.as_str()).as_str(), " 不支持，仅支持 C/K"))
            }
        },
    }
}

pub open spec fn durations(segs: Seq<SegmentIn>) -> Seq<Real> {
    segs.map_values(|g: SegmentIn| g.duration_h)
}

/// Why the load of a specimen is refused, if it is.
pub open spec fn load_fault(s: SpecimenIn) -> Option<Seq<char>> {
    if s.variable {
        let d = durations(s.segments@);
        if s.segments@.len() == 0 {
            Some("变载样本缺少载荷段"@)
        } else if exists|i: int|
            0 <= i < s.segments@.len() && !(positive((#[trigger] s.segments@[i]).stress_mpa) && positive(
                s.segments@[i].duration_h,
            )) {
            Some("载荷段应力与时长须为正"@)
        } else if !fle(fabs(fsub(fsum(d, d.len()), s.time_h)), lit(DURATION_SLACK)) {
            Some("载荷段时长之和与样本时间不一致"@)
        } else {
            None
        }
    } else if s.stress_mpa is Some && positive(s.stress_mpa->0) {
        None
    } else {
        Some("恒载样本应力须为正"@)
    }
}

/// Why a specimen is refused, if it is: the first fault, without the name before it.
pub open spec fn fault(s: SpecimenIn) -> Option<Seq<char>> {
    match kelvin_of(s.temp_value, option_view(s.temp_unit)) {
        Err(e) => Some(e),
        Ok(_) => if !positive(s.time_h) {
            Some("时间须为正"@)
        } else if s.outcome@ != "ruptured"@ && s.outcome@ != "censored"@ {
            Some("结局须为 ruptured 或 censored"@)
        } else {
            load_fault(s)
        },
    }
}

/// The specimen that is made of an accepted one, before it has a number in the store.
pub open spec fn made(s: SpecimenIn, r: Specimen) -> bool {
    &&& r.id == 0
    &&& r.specimen_id@ == s.specimen_id@
    &&& r.heat@ == s.heat@
    &&& kelvin_of(s.temp_value, option_view(s.temp_unit)) == Ok::<Real, Seq<char>>(r.temp_kelvin)
    &&& r.temp_c == fsub(r.temp_kelvin, lit(ICE_POINT))
    &&& r.stress_mpa == s.stress_mpa
    &&& r.time_h == s.time_h
    &&& r.outcome@ == s.outcome@
    &&& r.criterion@ == s.criterion@
    &&& r.variable == s.variable
    &&& option_view(r.note) == option_view(s.note)
    &&& r.segments@ == (if s.variable {
        s.segments@.map_values(
            |g: SegmentIn|
                Segment {
                    temp_kelvin: r.temp_kelvin,
                    stress_mpa: g.stress_mpa,
                    duration_h: g.duration_h,
                },
        )
    } else {
        seq![
            Segment {
                temp_kelvin: r.temp_kelvin,
                stress_mpa: s.stress_mpa->0,
                duration_h: s.time_h,
            },
        ]
    })
}

impl SpecimenIn {
    fn load_error(&self) -> (r: Option<String>)
        ensures
            option_view(r) == load_fault(*self),
    {
        if self.variable {
            if self.segments.len() == 0 {
                return Some("变载样本缺少载荷段".to_owned());
            }
            let mut d: Vec<Real> = Vec::new();
            let mut i: usize = 0;
            while i < self.segments.len()
                invariant
                    self.variable,
                    self.segments@.len() > 0,
                    i <= self.segments@.len(),
                    d@ == durations(self.segments@).take(i as int),
                    forall|k: int|
                        0 <= k < i ==> positive((#[trigger] self.segments@[k]).stress_mpa) && positive(
                            self.segments@[k].duration_h,
                        ),
                decreases self.segments@.len() - i,
            {
                let g: SegmentIn = self.segments[i];
                if !is_positive(g.stress_mpa) || !is_positive(g.duration_h) {
                    proof {
                        assert(!(positive(self.segments@[i as int].stress_mpa) && positive(
                            self.segments@[i as int].duration_h,
                        )));
                    }
                    return Some("载荷段应力与时长须为正".to_owned());
                }
                d.push(g.duration_h);
                proof {
                    assert(d@ =~= durations(self.segments@).take(i + 1));
                }
                i = i + 1;
            }
            proof {
                assert(d@ =~= durations(self.segments@));
            }
            if !sum(&d).minus(self.time_h).abs().le(lit(DURATION_SLACK)) {
                return Some("载荷段时长之和与样本时间不一致".to_owned());
            }
            None
        } else {
            match self.stress_mpa {
                Some(x) => if is_positive(x) {
                    None
                } else {
                    Some("恒载样本应力须为正".to_owned())
                },
                None => Some("恒载样本应力须为正".to_owned()),
            }
        }
    }

    fn parts(&self, temp_kelvin: Real) -> (r: Vec<Segment>)
        requires
            !self.variable ==> self.stress_mpa is Some,
        ensures
            r@ == (if self.variable {
                self.segments@.map_values(
                    |g: SegmentIn|
                        Segment {
                            temp_kelvin,
                            stress_mpa: g.stress_mpa,
                            duration_h: g.duration_h,
                        },
                )
            } else {
                seq![
                    Segment {
                        temp_kelvin,
                        stress_mpa: self.stress_mpa->0,
                        duration_h: self.time_h,
                    },
                ]
            }),
    {
        let mut out: Vec<Segment> = Vec::new();
        if self.variable {
            let mut i: usize = 0;
            while i < self.segments.len()
                invariant
                    i <= self.segments@.len(),
                    out@.len() == i,
                    forall|k: int|
                        0 <= k < i ==> #[trigger] out@[k] == (Segment {
                            temp_kelvin,
                            stress_mpa: self.segments@[k].stress_mpa,
                            duration_h: self.segments@[k].duration_h,
                        }),
                decreases self.segments@.len() - i,
            {
                let g: SegmentIn = self.segments[i];
                out.push(
                    Segment { temp_kelvin, stress_mpa: g.stress_mpa, duration_h: g.duration_h },
                );
                i = i + 1;
            }
        } else {
            out.push(
                Segment {
                    temp_kelvin,
                    stress_mpa: self.stress_mpa.unwrap(),
                    duration_h: self.time_h,
                },
            );
        }
        out
    }

    /// Accepts a specimen, or says what is wrong with it.
    pub fn validate(&self) -> (r: Result<Specimen, DomainError>)
        ensures
            match r {
                Ok(s) => fault(*self) is None && made(*self, s),
                Err(e) => fault(*self) is Some && e.0@ == self.specimen_id@ + ": "@ + fault(*self)->0,
            },
    {
        let kelvin: Real = match to_kelvin(self.temp_value, &self.temp_unit) {
            Ok(k) => k,
            Err(e) => {
                return Err(self.refused(e.as_str()));
            },
        };
        if !is_positive(self.time_h) {
            return Err(self.refused("时间须为正"));
        }
        if !same(self.outcome.as_str(), "ruptured") && !same(self.outcome.as_str(), "censored") {
            return Err(self.refused("结局须为 ruptured 或 censored"));
        }
        match self.load_error() {
            Some(e) => {
                return Err(self.refused(e.as_str()));
            },
            None => {},
        }
        let segments: Vec<Segment> = self.parts(kelvin);
        let note: Option<String> = match &self.note {
            Some(t) => Some(t.clone()),
            None => None,
        };
        Ok(
            Specimen {
                id: 0,
                specimen_id: self.specimen_id.clone(),
                heat: self.heat.clone(),
                temp_kelvin: kelvin,
                temp_c: kelvin.minus(lit(ICE_POINT)),
                stress_mpa: self.stress_mpa,
                time_h: self.time_h,
                outcome: self.outcome.clone(),
                criterion: self.criterion.clone(),
                variable: self.variable,
                segments,
                note,
            },
        )
    }

    fn refused(&self, why: &str) -> (r: DomainError)
        ensures
            r.0@ == self.specimen_id@ + ": "@ + why@,
    {
        DomainError(cat(cat(self.specimen_id.as_str(), ": ").as_str(), why))
    }
}

/// A specimen as it is read back from the store: the temperature is kept in kelvin alone,
/// and segments that cannot be read count as none.
pub fn from_store(
    id: i64,
    specimen_id: String,
    heat: String,
    temp_kelvin: Real,
    stress_mpa: Option<Real>,
    time_h: Real,
    outcome: String,
    criterion: String,
    variable: i64,
    segments: Option<Vec<Segment>>,
    note: Option<String>,
) -> (r: Specimen)
    ensures
        r.id == id,
        r.specimen_id == specimen_id,
        r.heat == heat,
        r.temp_kelvin == temp_kelvin,
        r.temp_c == fsub(temp_kelvin, lit(ICE_POINT)),
        r.stress_mpa == stress_mpa,
        r.time_h == time_h,
        r.outcome == outcome,
        r.criterion == criterion,
        r.variable == (variable != 0),
        r.note == note,
        match segments {
            Some(v) => r.segments == v,
            None => r.segments@.len() == 0,
        },
{
    let segments: Vec<Segment> = match segments {
        Some(v) => v,
        None => Vec::new(),
    };
    Specimen {
        id,
        specimen_id,
        heat,
        temp_kelvin,
        temp_c: temp_kelvin.minus(lit(ICE_POINT)),
        stress_mpa,
        time_h,
        outcome,
        criterion,
        variable: variable != 0,
        segments,
        note,
    }
}

/// A specimen without a temperature unit is refused, and so is one in any unit but C or K.
pub proof fn law_unit_is_required(s: SpecimenIn)
    requires
        s.temp_unit is None || (trimmed(s.temp_unit->0@) != "C"@ && trimmed(s.temp_unit->0@) != "K"@),
    ensures
        fault(s) is Some,
{
}

/// An accepted specimen has a segment, and no stress or duration that is not positive.
pub proof fn law_accepted_has_segments(s: SpecimenIn, r: Specimen, i: int)
    requires
        fault(s) is None,
        made(s, r),
    ensures
        r.segments@.len() > 0,
        0 <= i < r.segments@.len() ==> positive(r.segments@[i].stress_mpa) && positive(
            r.segments@[i].duration_h,
        ),
{
    if s.variable && 0 <= i < r.segments@.len() {
        assert(r.segments@[i].stress_mpa == s.segments@[i].stress_mpa);
    }
}

/// What an accepted specimen holds: its temperature in kelvin, 273.15 above degrees Celsius, on
/// every segment; a positive time; one outcome of the two; and its load as it was given, a
/// constant one as a single segment of its whole time, a variable one with durations that add up
/// to its time within the slack.
pub proof fn law_accepted_keeps_load(s: SpecimenIn, r: Specimen)
    requires
        fault(s) is None,
        made(s, r),
    ensures
        s.temp_unit matches Some(u) && {
            ||| trimmed(u@) == "C"@ && r.temp_kelvin == fadd(
                s.temp_value,
                lit(0x4071_1266_6666_6666),
            )
            ||| trimmed(u@) == "K"@ && r.temp_kelvin == s.temp_value
        },
        positive(r.time_h),
        r.outcome@ == "ruptured"@ || r.outcome@ == "censored"@,
        forall|i: int|
            0 <= i < r.segments@.len() ==> (#[trigger] r.segments@[i]).temp_kelvin
                == r.temp_kelvin,
        !s.variable ==> r.segments@.len() == 1 && r.segments@[0].duration_h == s.time_h
            && s.stress_mpa == Some(r.segments@[0].stress_mpa),
        s.variable ==> r.segments@.len() == s.segments@.len() && forall|i: int|
            0 <= i < r.segments@.len() ==> (#[trigger] r.segments@[i]).stress_mpa
                == s.segments@[i].stress_mpa && r.segments@[i].duration_h
                == s.segments@[i].duration_h,
        s.variable ==> fle(
            fabs(fsub(fsum(durations(s.segments@), s.segments@.len()), s.time_h)),
            lit(DURATION_SLACK),
        ),
{
    let d = durations(s.segments@);
    assert(d.len() == s.segments@.len());
}

/// A specimen is refused for nothing else: with a temperature in C or K above absolute zero, a
/// positive time, an outcome of the two and a load that is sound it is accepted.
pub proof fn law_sound_is_accepted(s: SpecimenIn)
    requires
        s.temp_unit matches Some(u) && s.temp_value.finite() && {
            ||| trimmed(u@) == "C"@ && flt(lit(CELSIUS_LOW), s.temp_value)
            ||| trimmed(u@) == "K"@ && trimmed(u@) != "C"@ && flt(lit(ZERO), s.temp_value)
        },
        positive(s.time_h),
        s.outcome@ == "ruptured"@ || s.outcome@ == "censored"@,
        !s.variable ==> (s.stress_mpa matches Some(x) && positive(x)),
        s.variable ==> s.segments@.len() > 0 && fle(
            fabs(fsub(fsum(durations(s.segments@), s.segments@.len()), s.time_h)),
            lit(DURATION_SLACK),
        ),
        s.variable ==> forall|i: int|
            0 <= i < s.segments@.len() ==> positive((#[trigger] s.segments@[i]).stress_mpa)
                && positive(s.segments@[i].duration_h),
    ensures
        fault(s) is None,
{
    assert(durations(s.segments@).len() == s.segments@.len());
}

} // verus!
