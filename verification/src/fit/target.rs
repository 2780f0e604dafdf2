//! The points at which lives are asked for.
use vstd::prelude::*;
use crate::fit::TargetIn;
use crate::ingest::{is_positive, positive, CELSIUS_LOW, ICE_POINT};
use crate::number::{fle, flt, lit, Real};
use crate::number::arith::fadd;
use crate::number::consts::ZERO;
use crate::specimen::{debug_text, quoted};
use crate::text::{cat, decimal, same, show_int, trim, trimmed};

verus! {

/// How a message names the target with the number `who`.
pub open spec fn target_name(who: int) -> Seq<char> {
    "目标 "@ + decimal(who) + ": "@
}

/// The temperature of a target in kelvin, or what is wrong with it.
pub open spec fn target_kelvin_of(t: TargetIn, who: int) -> Result<Real, Seq<char>> {
    match t.temp_unit {
        Some(u) => if trimmed(u@) == "C"@ {
            if !t.temp_value.finite() || fle(t.temp_value, lit(CELSIUS_LOW)) {
                Err(target_name(who) + "摄氏度非法"@)
            } else {
                Ok(fadd(t.temp_value, lit(ICE_POINT)))
            }
        } else if trimmed(u@) == "K"@ {
            if !t.temp_value.finite() || fle(t.temp_value, lit(ZERO)) {
                Err(target_name(who) + "开尔文非法"@)
            } else {
                Ok(t.temp_value)
            }
        } else {
            Err(target_name(who) + "温度单位 "@ + debug_text(u@) + " 不支持（仅 C/K）"@)
        },
        None => Err(target_name(who) + "缺少温度单位，拒绝猜测"@),
    }
}

fn named(who: usize, words: &str) -> (r: String)
    ensures
        r@ == target_name(who as int) + words@,
{
    let n: String = show_int(who as u64);
    cat(cat(cat("目标 ", n.as_str()).as_str(), ": ").as_str(), words)
}

pub fn target_kelvin(t: &TargetIn, who: usize) -> (r: Result<Real, String>)
    ensures
        match r {
            Ok(k) => target_kelvin_of(*t, who as int) == Ok::<Real, Seq<char>>(k),
            Err(e) => target_kelvin_of(*t, who as int) == Err::<Real, Seq<char>>(e@),
        },
{
    match &t.temp_unit {
        Some(u) => {
            let unit: &str = trim(u.as_str());
            if same(unit, "C") {
                if !t.temp_value.is_finite() || t.temp_value.le(lit(CELSIUS_LOW)) {
                    return Err(named(who, "摄氏度非法"));
                }
                Ok(t.temp_value.plus(lit(ICE_POINT)))
            } else if same(unit, "K") {
                if !t.temp_value.is_finite() || t.temp_value.le(lit(ZERO)) {
                    return Err(named(who, "开尔文非法"));
                }
                Ok(t.temp_value)
            } else {
                let q: String = quoted(u.as_str());
                let head: String = cat(named(who, "温度单位 ").as_str(), q.as_str());
                Err(cat(head.as_str(), " 不支持（仅 C/K）"))
            }
        },
        None => Err(named(who, "缺少温度单位，拒绝猜测")),
    }
}

/// Why a target is refused, if it is.
pub open spec fn target_refusal(t: TargetIn, who: int) -> Option<Seq<char>> {
    match target_kelvin_of(t, who) {
        Err(e) => Some(e),
        Ok(_) => if positive(t.stress_mpa) {
            None
        } else {
            Some(target_name(who) + "应力须为正"@)
        },
    }
}

/// The temperature of a target with a stress that can be used.
pub fn check_target(t: &TargetIn, who: usize) -> (r: Result<Real, String>)
    ensures
        match r {
            Ok(k) => target_refusal(*t, who as int) is None && target_kelvin_of(*t, who as int)
                == Ok::<Real, Seq<char>>(k),
            Err(e) => target_refusal(*t, who as int) == Some(e@),
        },
{
    let k: Real = target_kelvin(t, who)?;
    if !is_positive(t.stress_mpa) {
        return Err(named(who, "应力须为正"));
    }
    Ok(k)
}

/// Why a list of targets is refused from the `i`-th on, if it is: the first fault.
pub open spec fn targets_refusal(ts: Seq<TargetIn>, i: int) -> Option<Seq<char>>
    decreases ts.len() - i,
{
    if i < 0 || i >= ts.len() {
        None
    } else {
        match target_refusal(ts[i], i + 1) {
            Some(e) => Some(e),
            None => targets_refusal(ts, i + 1),
        }
    }
}

/// A target without a temperature unit is refused.
pub proof fn law_target_unit_is_required(t: TargetIn, who: int)
    requires
        t.temp_unit is None,
    ensures
        target_refusal(t, who) is Some,
{
}

/// The same temperature may be given in degrees Celsius or in kelvin: the two differ by 273.15,
/// and a target that can be used has a finite one and a positive stress.
pub proof fn law_target_units(t: TargetIn, who: int)
    requires
        target_refusal(t, who) is None,
    ensures
        target_kelvin_of(t, who) matches Ok(k) && t.temp_unit matches Some(u) && {
            ||| trimmed(u@) == "C"@ && k == fadd(t.temp_value, lit(0x4071_1266_6666_6666))
            ||| trimmed(u@) == "K"@ && k == t.temp_value
        },
        t.temp_value.finite(),
        t.stress_mpa.finite() && flt(lit(ZERO), t.stress_mpa),
        t.temp_unit matches Some(u) && trimmed(u@) == "K"@ && trimmed(u@) != "C"@ ==> flt(
            lit(ZERO),
            t.temp_value,
        ),
{
}

} // verus!
