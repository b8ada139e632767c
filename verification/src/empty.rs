//! Emptying the trash: which trashed files go.
use vstd::prelude::*;

verus! {

/// Nanoseconds in a second.
pub const NANOS_PER_SEC: i128 = 1_000_000_000;

/// Seconds in a day.
pub const SECS_PER_DAY: u64 = 86400;

/// Whether a file trashed at `trashed_at` goes: every file when there is no
/// cutoff, otherwise a file known to be no newer than the cutoff.
pub open spec fn deletes(trashed_at: Option<i128>, cutoff: Option<i128>) -> bool {
    match cutoff {
        Some(c) => trashed_at matches Some(t) && t <= c,
        None => true,
    }
}

/// Whether a file trashed at `trashed_at` goes: every file when there is no
/// cutoff, otherwise a file known to be no newer than the cutoff. Times are
/// nanoseconds since the Unix epoch.
pub fn should_delete(trashed_at: &Option<i128>, cutoff: Option<i128>) -> (r: bool)
    ensures
        r == deletes(*trashed_at, cutoff),
{
    match cutoff {
        Some(c) => match trashed_at {
            Some(t) => *t <= c,
            None => false,
        },
        None => true,
    }
}

/// The cutoff for `empty DAYS` at time `now`: exactly `days` days earlier
/// (`None` without days). Only files trashed at least that long ago go; a
/// cutoff before the earliest time a clock can hold keeps every file.
pub open spec fn spec_cutoff(now: i128, days: Option<u64>) -> Option<i128> {
    match days {
        None => None,
        Some(d) => Some((now - d * SECS_PER_DAY * NANOS_PER_SEC) as i128),
    }
}

/// The cutoff for `empty DAYS` at time `now` (nanoseconds since the epoch,
/// within the range a system clock can hold).
pub fn cutoff(now: i128, days: Option<u64>) -> (r: Option<i128>)
    requires
        i64::MIN as int * NANOS_PER_SEC <= now < (i64::MAX as int + 1) * NANOS_PER_SEC,
    ensures
        r == spec_cutoff(now, days),
{
    match days {
        None => None,
        Some(d) => {
            assert(d * SECS_PER_DAY * NANOS_PER_SEC <= u64::MAX as int * 86400 * 1_000_000_000) by (nonlinear_arith)
                requires
                    d <= u64::MAX,
            ;
            let span: i128 = (d as i128) * (SECS_PER_DAY as i128) * NANOS_PER_SEC;
            Some(now - span)
        },
    }
}

/// `empty` without DAYS removes every file; with DAYS it removes exactly the
/// files whose time is known and at least DAYS days before `now`.
pub proof fn lemma_empty_removes_old_files(now: i128, days: Option<u64>, trashed_at: Option<i128>)
    requires
        i64::MIN as int * NANOS_PER_SEC <= now < (i64::MAX as int + 1) * NANOS_PER_SEC,
    ensures
        days is None ==> deletes(trashed_at, spec_cutoff(now, days)),
        days matches Some(d) ==> (deletes(trashed_at, spec_cutoff(now, days)) <==> (trashed_at matches Some(t)
            && now - t >= d * SECS_PER_DAY * NANOS_PER_SEC)),
{
    if let Some(d) = days {
        assert(d * SECS_PER_DAY * NANOS_PER_SEC <= u64::MAX as int * 86400 * 1_000_000_000) by (nonlinear_arith)
            requires
                d <= u64::MAX,
        ;
        assert(0 <= d * SECS_PER_DAY * NANOS_PER_SEC) by (nonlinear_arith);
    }
}

} // verus!
