use trash_cli::trash::date::format_for_display;

const SEC: i128 = 1_000_000_000;

#[test]
fn shows_utc_date_and_time() {
    assert_eq!(format_for_display(0), "1970-01-01 00:00:00");
    assert_eq!(format_for_display(86_399 * SEC + 999_999_999), "1970-01-01 23:59:59");
    assert_eq!(format_for_display(951_782_400 * SEC), "2000-02-29 00:00:00");
    assert_eq!(format_for_display(1_700_000_000 * SEC), "2023-11-14 22:13:20");
}

#[test]
fn shows_times_before_the_epoch() {
    assert_eq!(format_for_display(-1), "1969-12-31 23:59:59");
    assert_eq!(format_for_display(-SEC), "1969-12-31 23:59:59");
    assert_eq!(format_for_display(-62_167_219_200 * SEC), "0000-01-01 00:00:00");
    assert_eq!(format_for_display(-62_167_219_201 * SEC), "-001-12-31 23:59:59");
}

#[test]
fn shows_years_past_9999() {
    assert_eq!(format_for_display(253_402_300_800 * SEC), "10000-01-01 00:00:00");
}
