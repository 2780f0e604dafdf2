//! Times as the store keeps them.
use vstd::prelude::*;
use crate::text::{decimal, show_int};

verus! {

/// The seconds since the start of 1970 by `std::time::SystemTime::now`, and nothing where
/// the clock stands before it. Nothing is promised of the reading.
#[verifier::external_body]
pub(crate) fn unix_seconds() -> (r: Option<u64>) {
    std::time::SystemTime::now().duration_since(std::time::UNIX_EPOCH).ok().map(|d| d.as_secs())
}

/// The text of a time: its seconds in decimal, 0 where there are none.
pub open spec fn time_text_of(secs: Option<u64>) -> Seq<char> {
    match secs {
        Some(s) => decimal(s as int),
        None => decimal(0),
    }
}

pub fn time_text(secs: Option<u64>) -> (r: String)
    ensures
        r@ == time_text_of(secs),
{
    match secs {
        Some(s) => show_int(s),
        None => show_int(0),
    }
}

/// Whether the clock may be read as `secs`.
pub closed spec fn clock_reads(secs: Option<u64>) -> bool {
    call_ensures(unix_seconds, (), secs)
}

/// The present time as text: that of a reading of the clock.
pub fn now_ts() -> (r: String)
    ensures
        exists|secs: Option<u64>| #[trigger] clock_reads(secs) && r@ == time_text_of(secs),
{
    let secs: Option<u64> = unix_seconds();
    proof {
        assert(clock_reads(secs));
    }
    time_text(secs)
}

} // verus!
