use std::time::{Duration, SystemTime, UNIX_EPOCH};

use trash_cli::empty::{cutoff, should_delete};

fn nanos(t: SystemTime) -> i128 {
    match t.duration_since(UNIX_EPOCH) {
        Ok(d) => d.as_nanos() as i128,
        Err(e) => -(e.duration().as_nanos() as i128),
    }
}

#[test]
fn deletes_everything_without_cutoff() {
    assert!(should_delete(&None, None));
    assert!(should_delete(&Some(nanos(SystemTime::now())), None));
}

#[test]
fn keeps_recent_items_when_cutoff_is_set() {
    let now = SystemTime::now();
    let cutoff = now
        .checked_sub(Duration::from_secs(60))
        .expect("cutoff should be valid");
    let recent = now.checked_sub(Duration::from_secs(10)).map(nanos);
    let old = now.checked_sub(Duration::from_secs(120)).map(nanos);

    assert!(!should_delete(&recent, Some(nanos(cutoff))));
    assert!(should_delete(&old, Some(nanos(cutoff))));
    assert!(!should_delete(&None, Some(nanos(cutoff))));
}

#[test]
fn an_item_exactly_at_the_cutoff_goes() {
    assert!(should_delete(&Some(5), Some(5)));
    assert!(!should_delete(&Some(6), Some(5)));
}

#[test]
fn cutoff_is_days_before_now() {
    let now: i128 = 1_700_000_000_123_456_789;
    assert_eq!(cutoff(now, None), None);
    assert_eq!(cutoff(now, Some(0)), Some(now));
    assert_eq!(cutoff(now, Some(7)), Some(now - 7 * 86_400 * 1_000_000_000));
}

#[test]
fn huge_day_counts_keep_every_file() {
    let now: i128 = 0;
    let c = cutoff(now, Some(u64::MAX)).expect("a cutoff");
    assert_eq!(c, -(u64::MAX as i128) * 86_400 * 1_000_000_000);
    let earliest: i128 = i64::MIN as i128 * 1_000_000_000;
    assert!(!should_delete(&Some(earliest), Some(c)));
    let c = cutoff(now, Some(200_000_000_000_000)).expect("a cutoff");
    assert!(!should_delete(&Some(earliest), Some(c)));
    assert!(!should_delete(&None, Some(c)));
}
