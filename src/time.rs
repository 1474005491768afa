use vstd::prelude::*;

verus! {

/// The earliest instant, in seconds, that is always formatted.
pub const MIN_FORMAT_SECONDS: i64 = -8_000_000_000_000;

/// The latest instant, in seconds, that is always formatted.
pub const MAX_FORMAT_SECONDS: i64 = 8_000_000_000_000;

/// The smallest offset, in minutes, that a formatted timestamp accepts.
pub const MIN_OFFSET_MINUTES: i32 = -1439;

/// The largest offset, in minutes, that a formatted timestamp accepts.
pub const MAX_OFFSET_MINUTES: i32 = 1439;

/// A commit timestamp: seconds since the Unix epoch and the author's UTC
/// offset in minutes. Instants are ordered by `seconds` alone.
#[derive(Clone, Copy, Debug, PartialEq, Eq, Structural)]
pub struct Time {
    pub seconds: i64,
    pub offset_minutes: i32,
}

/// The RFC 3339 text of the instant `seconds`, shown at a UTC offset of
/// `offset_seconds`.
pub uninterp spec fn rfc3339_of(seconds: int, offset_seconds: int) -> Seq<char>;

/// Relies on chrono's `FixedOffset::east_opt`, `TimeZone::timestamp_opt` and
/// `DateTime::to_rfc3339`: an offset outside one day either way is refused,
/// and the text depends on the two numbers alone. Every offset within a day
/// and every instant within chrono's calendar (years -262143 to 262142, which
/// holds the range below) is formatted.
#[verifier::external_body]
fn format_rfc3339(seconds: i64, offset_seconds: i32) -> (r: Option<String>)
    ensures
        !(-86400 < offset_seconds < 86400) ==> r is None,
        -86400 < offset_seconds < 86400 && MIN_FORMAT_SECONDS <= seconds <= MAX_FORMAT_SECONDS
            ==> r is Some,
        r matches Some(s) ==> s@ == rfc3339_of(seconds as int, offset_seconds as int),
{
    match chrono::FixedOffset::east_opt(offset_seconds) {
        Some(offset) => match chrono::TimeZone::timestamp_opt(&offset, seconds, 0) {
            chrono::LocalResult::Single(dt) => Some(dt.to_rfc3339()),
            _ => None,
        },
        None => None,
    }
}

impl Time {
    pub fn new(seconds: i64, offset_minutes: i32) -> (r: Time)
        ensures
            r.seconds == seconds,
            r.offset_minutes == offset_minutes,
    {
        Time { seconds, offset_minutes }
    }

    /// Whether the offset can be shown in an RFC 3339 timestamp.
    pub open spec fn offset_in_range(self) -> bool {
        MIN_OFFSET_MINUTES <= self.offset_minutes <= MAX_OFFSET_MINUTES
    }

    /// Whether the instant lies in the range that is always formatted.
    pub open spec fn seconds_in_range(self) -> bool {
        MIN_FORMAT_SECONDS <= self.seconds <= MAX_FORMAT_SECONDS
    }

    /// The instant as RFC 3339 text at its own offset; `None` where the offset
    /// is out of range or the instant lies outside the calendar range that the
    /// formatter supports. Text always comes within both ranges.
    pub fn to_rfc3339(&self) -> (r: Option<String>)
        ensures
            !self.offset_in_range() ==> r is None,
            self.offset_in_range() && self.seconds_in_range() ==> r is Some,
            r matches Some(s) ==> s@ == rfc3339_of(
                self.seconds as int,
                self.offset_minutes * 60,
            ),
    {
        if MIN_OFFSET_MINUTES <= self.offset_minutes && self.offset_minutes <= MAX_OFFSET_MINUTES {
            format_rfc3339(self.seconds, self.offset_minutes * 60)
        } else {
            None
        }
    }
}

} // verus!
