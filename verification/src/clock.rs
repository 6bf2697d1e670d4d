//! The UTC clock and its text stamps, from `chrono`.

use vstd::prelude::*;

verus! {

/// The last second, counted from the Unix epoch, of the last year that chrono's
/// UTC dates reach (31 December 262142, 23:59:59).
pub const LAST_UTC_SECOND: i64 = 8_210_266_876_799;

/// The strftime pattern of the stamp in a question's id.
pub open spec fn compact_pattern() -> Seq<char> {
    "%Y%m%d_%H%M%S"@
}

/// The strftime pattern of a question's `asked_at`.
pub open spec fn iso_pattern() -> Seq<char> {
    "%Y-%m-%dT%H:%M:%SZ"@
}

/// What chrono's `DateTime::<Utc>::format(pattern)` writes for the instant `secs`
/// seconds after the Unix epoch.
pub uninterp spec fn utc_text(secs: int, pattern: Seq<char>) -> Seq<char>;

/// chrono's `DateTime::from_timestamp(secs, 0)` formatted with `format(pattern)`:
/// the text is named `utc_text(secs, pattern)`. The range and the two patterns of
/// the `requires` are those for which chrono neither returns `None` nor fails to format.
#[verifier::external_body]
pub(crate) fn format_utc(secs: i64, pattern: &str) -> (r: String)
    requires
        0 <= secs <= LAST_UTC_SECOND,
        pattern@ == compact_pattern() || pattern@ == iso_pattern(),
    ensures
        r@ == utc_text(secs as int, pattern@),
{
    chrono::DateTime::from_timestamp(secs, 0).unwrap().format(pattern).to_string()
}


/// The instant `now` (seconds since the Unix epoch) as an ISO-8601 UTC stamp such
/// as `2024-05-01T09:30:00Z`.
pub fn stamp_at(now: i64) -> (r: String)
    requires
        0 <= now <= LAST_UTC_SECOND,
    ensures
        r@ == utc_text(now as int, iso_pattern()),
{
    format_utc(now, "%Y-%m-%dT%H:%M:%SZ")
}

} // verus!
