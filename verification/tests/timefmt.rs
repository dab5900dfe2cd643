use graph_core::timefmt::iso8601_utc;

#[test]
fn iso8601_epoch() {
    assert_eq!(iso8601_utc(0), "1970-01-01T00:00:00Z");
}

#[test]
fn iso8601_known_instants() {
    // 2000-02-29 (a leap day of a century leap year) 12:34:56
    assert_eq!(iso8601_utc(951_827_696), "2000-02-29T12:34:56Z");
    // 2024-12-31T23:59:59Z and the second after it
    assert_eq!(iso8601_utc(1_735_689_599), "2024-12-31T23:59:59Z");
    assert_eq!(iso8601_utc(1_735_689_600), "2025-01-01T00:00:00Z");
    // 2100 is not a leap year: 2100-02-28 is followed by 2100-03-01
    assert_eq!(iso8601_utc(4_107_456_000), "2100-02-28T00:00:00Z");
    assert_eq!(iso8601_utc(4_107_542_400), "2100-03-01T00:00:00Z");
}

#[test]
fn iso8601_years_past_9999_widen() {
    // 10000-01-01T00:00:00Z
    assert_eq!(iso8601_utc(253_402_300_800), "10000-01-01T00:00:00Z");
}

#[test]
fn iso8601_largest_instant() {
    assert_eq!(iso8601_utc(u64::MAX), "584554051223-11-09T07:00:15Z");
}
