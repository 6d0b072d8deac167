//! Human-readable ages ("5m", "3h", "2y") for worktree activity.
use vstd::prelude::*;
use crate::text::{decimal, push_decimal, push_str};

verus! {

pub const MINUTE: i64 = 60;
pub const HOUR: i64 = 3600;
pub const DAY: i64 = 86400;
pub const WEEK: i64 = 604800;
pub const MONTH: i64 = 2592000;
pub const YEAR: i64 = 31536000;

/// `now - unix_secs`, saturated to the `i64` range (`i64::saturating_sub`).
pub open spec fn elapsed(unix_secs: i64, now: i64) -> int {
    let d = now - unix_secs;
    if d < i64::MIN {
        i64::MIN as int
    } else if d > i64::MAX {
        i64::MAX as int
    } else {
        d
    }
}

/// The label for an age of `d` seconds: "just now" under a minute, then
/// whole minutes, hours, days, weeks, 30-day months and 365-day years.
pub open spec fn age_label_of(d: int) -> Seq<char> {
    if d < MINUTE {
        "just now"@
    } else if d < HOUR {
        decimal((d / (MINUTE as int)) as nat) + "m"@
    } else if d < DAY {
        decimal((d / (HOUR as int)) as nat) + "h"@
    } else if d < WEEK {
        decimal((d / (DAY as int)) as nat) + "d"@
    } else if d < MONTH {
        decimal((d / (WEEK as int)) as nat) + "w"@
    } else if d < YEAR {
        decimal((d / (MONTH as int)) as nat) + "mo"@
    } else {
        decimal((d / (YEAR as int)) as nat) + "y"@
    }
}

/// Formats `unix_secs` relative to `now`: "just now", "5m", "3h", "2d",
/// "3w", "5mo", "2y". A timestamp in the future counts as "just now".
pub fn relative_age(unix_secs: i64, now: i64) -> (r: String)
    ensures
        r@ == age_label_of(elapsed(unix_secs, now)),
{
    let delta: i64 = match now.checked_sub(unix_secs) {
        Some(d) => d,
        None => if unix_secs > 0 { i64::MIN } else { i64::MAX },
    };
    let mut s = String::new();
    if delta < MINUTE {
        push_str(&mut s, "just now");
        return s;
    }
    let (n, unit): (i64, &str) = if delta < HOUR {
        (delta / MINUTE, "m")
    } else if delta < DAY {
        (delta / HOUR, "h")
    } else if delta < WEEK {
        (delta / DAY, "d")
    } else if delta < MONTH {
        (delta / WEEK, "w")
    } else if delta < YEAR {
        (delta / MONTH, "mo")
    } else {
        (delta / YEAR, "y")
    };
    push_decimal(&mut s, n as u64);
    push_str(&mut s, unit);
    s
}

/// A timestamp at or after `now` (a future commit, from clock skew) reads
/// "just now", never a negative age.
pub proof fn law_future_is_just_now(unix_secs: i64, now: i64)
    requires
        unix_secs >= now,
    ensures
        age_label_of(elapsed(unix_secs, now)) == "just now"@,
{
}


} // verus!
