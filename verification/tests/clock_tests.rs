use question_desk::clock::{stamp_at, LAST_UTC_SECOND};

#[test]
fn stamps_are_iso_utc() {
    assert_eq!(stamp_at(0), "1970-01-01T00:00:00Z");
    assert_eq!(stamp_at(1_714_555_800), "2024-05-01T09:30:00Z");
    assert_eq!(stamp_at(LAST_UTC_SECOND), "+262142-12-31T23:59:59Z");
}
