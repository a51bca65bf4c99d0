//! The time-window filter: decides whether a commit timestamp falls inside
//! the last `days` days, measured back from a caller-supplied reference time.

use vstd::prelude::*;

verus! {

/// A commit is inside the window when `days` is zero (meaning "all time") or
/// when its timestamp lies at or after `now - days * 24h`, seconds precision.
pub open spec fn spec_within_window(commit_time: int, days: int, now: int) -> bool {
    days == 0 || commit_time >= now - days * 86400
}

/// Decide whether a commit at `commit_time` (seconds since the epoch) lies
/// within the last `days` days before `now`. `days == 0` means all time.
/// The reference time is passed in so a whole aggregation pass shares one
/// consistent cutoff.
pub fn is_within_days(commit_time: i64, days: i64, now: i64) -> (r: bool)
    requires
        0 <= days,
        days * 86400 <= i64::MAX,
        i64::MIN <= now - days * 86400,
    ensures
        r == spec_within_window(commit_time as int, days as int, now as int),
{
    if days == 0 {
        true
    } else {
        let cutoff = now - days * 86400;
        commit_time >= cutoff
    }
}

/// For a zero-day window every commit is included, however old it is.
pub proof fn lemma_window_all_time(commit_time: int, now: int)
    ensures
        spec_within_window(commit_time, 0, now),
{
}

/// The window's lower bound is inclusive: a commit exactly at
/// `now - days * 24h` is included, and one a second older is excluded.
pub proof fn lemma_window_boundary(days: int, now: int)
    requires
        days > 0,
    ensures
        spec_within_window(now - days * 86400, days, now),
        !spec_within_window(now - days * 86400 - 1, days, now),
{
}

} // verus!
