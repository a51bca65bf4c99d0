//! The time aggregator: bucket the in-window commits by local hour of day
//! (0–23) and day of week (Monday = 0 .. Sunday = 6). Buckets are created
//! lazily: an absent bucket means a count of zero.

use vstd::prelude::*;
use std::collections::HashMap;
use chrono::{Datelike, TimeZone, Timelike};
use crate::commit::{in_window, views, CommitData, CommitView};
use crate::seqsum::{lemma_sum_by_bounded_one, lemma_sum_by_push, sum_by};
use crate::window::is_within_days;

verus! {

/// Commit counts per local hour of day and per day of week.
#[derive(Debug)]
pub struct TimeStats {
    /// Bucket 0–23: commits authored in that local hour.
    pub hour_distribution: HashMap<u32, usize>,
    /// Bucket 0–6, Monday = 0: commits authored on that weekday.
    pub day_distribution: HashMap<u32, usize>,
}

/// One bucketed commit: its local hour of day and day of week.
#[derive(Clone, Copy, Debug, PartialEq, Eq, Structural)]
pub struct TimeEntry {
    /// Local hour of day, 0–23.
    pub hour: u32,
    /// Day of week, Monday = 0 .. Sunday = 6.
    pub day: u32,
}

/// How many entries fall in hour bucket `h`.
pub open spec fn hour_count(es: Seq<TimeEntry>, h: int) -> nat {
    sum_by(es, |e: TimeEntry| if e.hour as int == h { 1nat } else { 0nat })
}

/// How many entries fall in weekday bucket `w`.
pub open spec fn day_count(es: Seq<TimeEntry>, w: int) -> nat {
    sum_by(es, |e: TimeEntry| if e.day as int == w { 1nat } else { 0nat })
}

/// How many commits of `cs` lie inside the window.
pub open spec fn window_count(cs: Seq<CommitView>, days: int, now: int) -> nat {
    sum_by(cs, |c: CommitView| if in_window(c, days, now) { 1nat } else { 0nat })
}

/// The two tables hold exactly the bucket counts of `es`: a key is present
/// exactly when its count is positive, and then maps to that count.
pub open spec fn time_stats_ok(
    es: Seq<TimeEntry>,
    hours: Map<u32, usize>,
    days_of_week: Map<u32, usize>,
) -> bool {
    &&& forall|h: u32| #[trigger] hours.contains_key(h) <==> hour_count(es, h as int) > 0
    &&& forall|h: u32| #[trigger] hours.contains_key(h) ==> hours[h] == hour_count(es, h as int)
    &&& forall|w: u32| #[trigger] days_of_week.contains_key(w) <==> day_count(es, w as int) > 0
    &&& forall|w: u32| #[trigger] days_of_week.contains_key(w) ==> days_of_week[w] == day_count(
        es,
        w as int,
    )
}

/// Relies on chrono: `Utc.timestamp_opt` accepts any timestamp in this
/// range, and the local-time conversion's `hour()` is below 24 and
/// `num_days_from_monday()` below 7. Which hour and weekday come back
/// depends on the machine's time zone, so nothing more is stated.
#[verifier::external_body]
fn local_hour_weekday(secs: i64) -> (r: (u32, u32))
    requires
        -8_000_000_000_000 <= secs <= 8_000_000_000_000,
    ensures
        r.0 < 24,
        r.1 < 7,
{
    let dt = chrono::Utc.timestamp_opt(secs, 0).unwrap().with_timezone(&chrono::Local);
    (dt.hour(), dt.weekday().num_days_from_monday())
}

/// Count each entry into its hour and weekday buckets.
///
/// The entries are pairs of an hour below 24 and a weekday index below 7,
/// Monday = 0; the result's tables hold exactly the bucket counts.
pub fn bucket_times(entries: &Vec<TimeEntry>) -> (r: TimeStats)
    requires
        forall|i: int|
            0 <= i < entries@.len() ==> (#[trigger] entries@[i]).hour < 24 && entries@[i].day < 7,
    ensures
        time_stats_ok(entries@, r.hour_distribution@, r.day_distribution@),
        forall|h: u32| #[trigger] r.hour_distribution@.contains_key(h) ==> h < 24,
        forall|w: u32| #[trigger] r.day_distribution@.contains_key(w) ==> w < 7,
{
    broadcast use vstd::std_specs::hash::group_hash_axioms;

    let mut hours: HashMap<u32, usize> = HashMap::new();
    let mut days_of_week: HashMap<u32, usize> = HashMap::new();
    let mut i: usize = 0;
    while i < entries.len()
        invariant
            0 <= i <= entries@.len(),
            forall|t: int|
                0 <= t < entries@.len() ==> (#[trigger] entries@[t]).hour < 24 && entries@[t].day < 7,
            time_stats_ok(entries@.take(i as int), hours@, days_of_week@),
            forall|h: u32| #[trigger] hours@.contains_key(h) ==> h < 24,
            forall|w: u32| #[trigger] days_of_week@.contains_key(w) ==> w < 7,
        decreases entries@.len() - i,
    {
        broadcast use vstd::std_specs::hash::group_hash_axioms;

        let en = entries[i];
        let ghost prefix = entries@.take(i as int);
        let ghost stepped = entries@.take(i as int + 1);
        proof {
            assert(stepped =~= prefix.push(en));
            assert forall|h: int| true implies #[trigger] hour_count(stepped, h) == hour_count(
                prefix,
                h,
            ) + (if en.hour as int == h {
                1nat
            } else {
                0nat
            }) by {
                lemma_sum_by_push(
                    prefix,
                    |e: TimeEntry| if e.hour as int == h { 1nat } else { 0nat },
                    en,
                );
            }
            assert forall|w: int| true implies #[trigger] day_count(stepped, w) == day_count(
                prefix,
                w,
            ) + (if en.day as int == w {
                1nat
            } else {
                0nat
            }) by {
                lemma_sum_by_push(
                    prefix,
                    |e: TimeEntry| if e.day as int == w { 1nat } else { 0nat },
                    en,
                );
            }
            lemma_sum_by_bounded_one(
                prefix,
                |e: TimeEntry| if e.hour as int == en.hour as int { 1nat } else { 0nat },
            );
            lemma_sum_by_bounded_one(
                prefix,
                |e: TimeEntry| if e.day as int == en.day as int { 1nat } else { 0nat },
            );
        }
        let hc = match hours.get(&en.hour) {
            Some(v) => *v,
            None => 0,
        };
        proof {
            assert(hc == hour_count(prefix, en.hour as int));
        }
        hours.insert(en.hour, hc + 1);
        let dc = match days_of_week.get(&en.day) {
            Some(v) => *v,
            None => 0,
        };
        proof {
            assert(dc == day_count(prefix, en.day as int));
        }
        days_of_week.insert(en.day, dc + 1);
        i += 1;
    }
    proof {
        assert(entries@.take(entries@.len() as int) =~= entries@);
    }
    TimeStats { hour_distribution: hours, day_distribution: days_of_week }
}

/// Bucket the in-window commits by local hour of day and day of week.
///
/// Which bucket a commit lands in depends on the machine's time zone, so
/// the contract promises the shape: there is one entry, with an hour below
/// 24 and a weekday below 7, for each in-window commit, and the tables hold
/// exactly those entries' bucket counts. The timestamp bound keeps every
/// conversion inside chrono's range.
pub fn analyze_time_distribution(commits: &Vec<CommitData>, days: i64, now: i64) -> (r: TimeStats)
    requires
        0 <= days,
        days * 86400 <= i64::MAX,
        i64::MIN <= now - days * 86400,
        forall|t: int|
            0 <= t < views(commits@).len() && in_window(
                #[trigger] views(commits@)[t],
                days as int,
                now as int,
            ) ==> -8_000_000_000_000 <= views(commits@)[t].time <= 8_000_000_000_000,
    ensures
        exists|es: Seq<TimeEntry>|
            {
                &&& es.len() == window_count(views(commits@), days as int, now as int)
                &&& (forall|i: int|
                    0 <= i < es.len() ==> (#[trigger] es[i]).hour < 24 && es[i].day < 7)
                &&& time_stats_ok(es, r.hour_distribution@, r.day_distribution@)
            },
        forall|h: u32| #[trigger] r.hour_distribution@.contains_key(h) ==> h < 24,
        forall|w: u32| #[trigger] r.day_distribution@.contains_key(w) ==> w < 7,
{
    let ghost cs = views(commits@);
    let ghost d = days as int;
    let ghost n = now as int;
    let mut entries: Vec<TimeEntry> = Vec::new();
    let mut i: usize = 0;
    while i < commits.len()
        invariant
            0 <= i <= commits.len(),
            cs == views(commits@),
            d == days as int,
            n == now as int,
            0 <= days,
            days * 86400 <= i64::MAX,
            i64::MIN <= now - days * 86400,
            forall|t: int|
                0 <= t < cs.len() && in_window(#[trigger] cs[t], d, n)
                    ==> -8_000_000_000_000 <= cs[t].time <= 8_000_000_000_000,
            entries@.len() == window_count(cs.take(i as int), d, n),
            forall|t: int|
                0 <= t < entries@.len() ==> (#[trigger] entries@[t]).hour < 24 && entries@[t].day < 7,
        decreases commits.len() - i,
    {
        let c = &commits[i];
        let ghost cv = cs[i as int];
        proof {
            assert(cv == commits@[i as int]@);
            assert(cs.take(i as int + 1) =~= cs.take(i as int).push(cv));
            lemma_sum_by_push(
                cs.take(i as int),
                |c: CommitView| if in_window(c, d, n) { 1nat } else { 0nat },
                cv,
            );
        }
        if is_within_days(c.time, days, now) {
            let hw = local_hour_weekday(c.time);
            entries.push(TimeEntry { hour: hw.0, day: hw.1 });
        }
        i += 1;
    }
    proof {
        assert(cs.take(commits@.len() as int) =~= cs);
    }
    let r = bucket_times(&entries);
    proof {
        assert(entries@.len() == window_count(cs, d, n));
        assert(time_stats_ok(entries@, r.hour_distribution@, r.day_distribution@));
    }
    r
}

/// Commutativity of the time aggregate: however the bucketed entries of
/// one pass are ordered, every hour and weekday bucket count comes out the
/// same; so does the number of in-window commits.
pub proof fn lemma_time_distribution_permutation(
    e1: Seq<TimeEntry>,
    e2: Seq<TimeEntry>,
    h: int,
    w: int,
)
    requires
        e1.to_multiset() == e2.to_multiset(),
    ensures
        hour_count(e1, h) == hour_count(e2, h),
        day_count(e1, w) == day_count(e2, w),
{
    crate::seqsum::lemma_sum_by_permutation(
        e1,
        e2,
        |e: TimeEntry| if e.hour as int == h { 1nat } else { 0nat },
    );
    crate::seqsum::lemma_sum_by_permutation(
        e1,
        e2,
        |e: TimeEntry| if e.day as int == w { 1nat } else { 0nat },
    );
}

/// The count of in-window commits is traversal-order-independent too.
pub proof fn lemma_window_count_permutation(
    s1: Seq<CommitView>,
    s2: Seq<CommitView>,
    days: int,
    now: int,
)
    requires
        s1.to_multiset() == s2.to_multiset(),
    ensures
        window_count(s1, days, now) == window_count(s2, days, now),
{
    crate::seqsum::lemma_sum_by_permutation(
        s1,
        s2,
        |c: CommitView| if in_window(c, days, now) { 1nat } else { 0nat },
    );
}

} // verus!
