//! Points in time, and what the `chrono` crate makes of them.

use vstd::prelude::*;

use crate::text::text_before;

verus! {

/// The nanoseconds of a second.
pub const NANOS_PER_SECOND: u32 = 1_000_000_000;

/// The first second of the year -262143.
pub const FIRST_SECOND: i64 = -8_334_601_228_800;

/// The last second of the year 262142.
pub const LAST_SECOND: i64 = 8_210_266_876_799;

/// The first second of the year 0.
pub const YEAR_ZERO: i64 = -62_167_219_200;

/// The first second of the year 10000.
pub const YEAR_TEN_THOUSAND: i64 = 253_402_300_800;

/// The first second of the year 100000.
pub const YEAR_HUNDRED_THOUSAND: i64 = 3_093_527_980_800;

/// The longest span in whole seconds.
pub const LONGEST_SPAN_SECONDS: i64 = 9_223_372_036_854_775;

/// A point in time: seconds since the beginning of 1970 in UTC, and nanoseconds.
///
/// A leap second has the number of the second before it and nanoseconds from
/// `NANOS_PER_SECOND` on.
#[derive(Clone, Copy, Debug, PartialEq, Eq, Structural)]
pub struct Timestamp {
    pub seconds: i64,
    pub nanos: u32,
}

impl Timestamp {
    /// Whether the point lies in the leap second at the end of a minute.
    pub open spec fn leap(self) -> bool {
        self.nanos >= NANOS_PER_SECOND
    }

    /// Whether the calendar reaches to the point.
    pub open spec fn representable(self) -> bool {
        &&& FIRST_SECOND <= self.seconds <= LAST_SECOND
        &&& self.nanos < 2 * NANOS_PER_SECOND
        &&& self.leap() ==> self.seconds as int % 60 == 59
    }

    /// Whether the year has at most four digits.
    pub open spec fn in_common_years(self) -> bool {
        YEAR_ZERO <= self.seconds < YEAR_TEN_THOUSAND
    }

    /// How RFC 3339 writes the year: a year beyond 9999 with a plus sign, one before
    /// the year 0 with a minus sign, any other with four digits. The sign for plus
    /// stands before that for minus, and both stand before the digits.
    pub open spec fn year_sign(self) -> int {
        if self.seconds >= YEAR_TEN_THOUSAND {
            0
        } else if self.seconds < YEAR_ZERO {
            1
        } else {
            2
        }
    }

    /// Whether both years are written with the same number of digits, and with no minus
    /// sign.
    pub open spec fn written_alike(self, other: Timestamp) -> bool {
        &&& self.year_sign() == other.year_sign()
        &&& self.year_sign() != 1
        &&& (self.seconds < YEAR_HUNDRED_THOUSAND) == (other.seconds < YEAR_HUNDRED_THOUSAND)
    }

    /// Whether the point lies before another.
    pub open spec fn precedes(self, other: Timestamp) -> bool {
        self.seconds < other.seconds || (self.seconds == other.seconds && self.nanos < other.nanos)
    }

    /// The time of day in seconds.
    pub open spec fn second_of_day(self) -> int {
        self.seconds as int % 86_400
    }

    /// The nanoseconds from `earlier` to `self`.
    ///
    /// A leap second counts where it lies between two different times of day.
    pub open spec fn nanos_since(self, earlier: Timestamp) -> int {
        let crossed: int = if self.second_of_day() > earlier.second_of_day() && earlier.leap() {
            1
        } else if self.second_of_day() < earlier.second_of_day() && self.leap() {
            -1
        } else {
            0
        };
        (self.seconds - earlier.seconds + crossed) * NANOS_PER_SECOND + self.nanos - earlier.nanos
    }

    /// The second that lies `span` seconds after the point.
    ///
    /// From within a leap second the way back leads over the second before it.
    pub open spec fn shifted_seconds(self, span: int) -> int {
        if self.leap() && span < 0 {
            self.seconds + 1 + span
        } else {
            self.seconds + span
        }
    }

    /// The nanoseconds of the point that lies `span` seconds after the point.
    pub open spec fn shifted_nanos(self, span: int) -> int {
        if self.leap() && span != 0 {
            self.nanos - NANOS_PER_SECOND
        } else {
            self.nanos as int
        }
    }

    /// Whether the calendar reaches to the point `span` seconds after this one.
    pub open spec fn can_shift(self, span: int) -> bool {
        &&& self.representable()
        &&& -LONGEST_SPAN_SECONDS <= span <= LONGEST_SPAN_SECONDS
        &&& FIRST_SECOND <= self.shifted_seconds(span) <= LAST_SECOND
    }
}

/// What `chrono::DateTime::to_rfc3339` writes for a point in time.
pub uninterp spec fn rfc3339_text(seconds: i64, nanos: u32) -> Seq<char>;

/// The point in time that `chrono::DateTime::parse_from_rfc3339` reads.
pub uninterp spec fn rfc3339_instant(text: Seq<char>) -> Option<(i64, u32)>;

/// What `chrono::DateTime::format` writes for a point in time under
/// `%Y%m%dT%H%M%S%.6fZ`.
pub uninterp spec fn compact_text(seconds: i64, nanos: u32) -> Seq<char>;

/// Whether the text of a point in time stands among the texts of others as the points
/// do: in the order of the points where the years are written alike, and in the order
/// of the signs where the years have different ones.
pub open spec fn in_order(text: Seq<char>, time: Timestamp) -> bool {
    forall|other: Timestamp|
        other.representable() ==> {
            let before = #[trigger] text_before(rfc3339_text(other.seconds, other.nanos), text);
            &&& other.written_alike(time) ==> before == other.precedes(time)
            &&& other.year_sign() != time.year_sign() ==> before == (other.year_sign()
                < time.year_sign())
        }
}

/// Calls `chrono::DateTime::to_rfc3339`.
///
/// There is a text if and only if the calendar reaches to the point; the text is
/// a function of the point alone, and with a year from 0 to 9999 it is read back
/// by `parse_from_rfc3339` as that point. The text begins with the year, goes on down
/// to the fraction of the second and has the same letters behind it, so that texts
/// whose years are written alike are in the order of the points; years with different
/// signs are in the order of the signs. Its letters are left unsaid otherwise.
#[verifier::external_body]
pub(crate) fn to_rfc3339(time: Timestamp) -> (text: Option<String>)
    ensures
        match text {
            Some(s) => {
                &&& time.representable()
                &&& s@ == rfc3339_text(time.seconds, time.nanos)
                &&& in_order(s@, time)
                &&& time.in_common_years() ==> rfc3339_instant(s@) == Some(
                    (time.seconds, time.nanos),
                )
            },
            None => !time.representable(),
        },
{
    chrono::DateTime::from_timestamp(time.seconds, time.nanos).map(|t| t.to_rfc3339())
}

/// Calls `chrono::DateTime::parse_from_rfc3339` and turns the result to UTC.
///
/// The result is a function of the text alone, and the calendar reaches to it.
/// Which texts are accepted is left unsaid.
#[verifier::external_body]
pub(crate) fn from_rfc3339(text: &str) -> (time: Option<Timestamp>)
    ensures
        match time {
            Some(t) => t.representable() && rfc3339_instant(text@) == Some((t.seconds, t.nanos)),
            None => rfc3339_instant(text@) is None,
        },
{
    let time = chrono::DateTime::parse_from_rfc3339(text).ok()?.with_timezone(&chrono::Utc);
    Some(Timestamp { seconds: time.timestamp(), nanos: time.timestamp_subsec_nanos() })
}

/// Calls `chrono::DateTime::format` with `%Y%m%dT%H%M%S%.6fZ`.
///
/// There is a text if and only if the calendar reaches to the point; it is a
/// function of the point alone. Its letters are left unsaid.
#[verifier::external_body]
pub(crate) fn to_compact_text(time: Timestamp) -> (text: Option<String>)
    ensures
        match text {
            Some(s) => time.representable() && s@ == compact_text(time.seconds, time.nanos),
            None => !time.representable(),
        },
{
    chrono::DateTime::from_timestamp(time.seconds, time.nanos).map(
        |t| t.format("%Y%m%dT%H%M%S%.6fZ").to_string(),
    )
}

/// Calls `chrono::DateTime::checked_add_signed` with a span of whole seconds.
///
/// The result is the point `span` seconds later; there is none if and only if
/// the calendar or the longest span does not reach that far.
#[verifier::external_body]
pub(crate) fn shift(time: Timestamp, span: i64) -> (moved: Option<Timestamp>)
    ensures
        match moved {
            Some(t) => {
                &&& time.can_shift(span as int)
                &&& t.seconds == time.shifted_seconds(span as int)
                &&& t.nanos == time.shifted_nanos(span as int)
            },
            None => !time.can_shift(span as int),
        },
{
    let span = chrono::TimeDelta::try_seconds(span)?;
    let time = chrono::DateTime::from_timestamp(time.seconds, time.nanos)?.checked_add_signed(span)?;
    Some(Timestamp { seconds: time.timestamp(), nanos: time.timestamp_subsec_nanos() })
}

/// Calls `chrono::DateTime::signed_duration_since`.
///
/// The span is given as whole seconds and the nanoseconds beyond them; there is
/// one if and only if the calendar reaches to both points.
#[verifier::external_body]
fn span_between(later: Timestamp, earlier: Timestamp) -> (span: Option<(i64, i32)>)
    ensures
        match span {
            Some(parts) => {
                &&& later.representable() && earlier.representable()
                &&& parts.0 * NANOS_PER_SECOND + parts.1 == later.nanos_since(earlier)
            },
            None => !(later.representable() && earlier.representable()),
        },
{
    let later = chrono::DateTime::from_timestamp(later.seconds, later.nanos)?;
    let earlier = chrono::DateTime::from_timestamp(earlier.seconds, earlier.nanos)?;
    let span = later.signed_duration_since(earlier);
    Some((span.num_seconds(), span.subsec_nanos()))
}

/// The nanoseconds from `earlier` to `later`; nothing where the calendar does not
/// reach to one of them.
pub fn elapsed_nanos(later: Timestamp, earlier: Timestamp) -> (nanos: Option<i128>)
    ensures
        match nanos {
            Some(n) => later.representable() && earlier.representable() && n == later.nanos_since(
                earlier,
            ),
            None => !(later.representable() && earlier.representable()),
        },
{
    match span_between(later, earlier) {
        Some((seconds, nanos)) => Some(seconds as i128 * NANOS_PER_SECOND as i128 + nanos as i128),
        None => None,
    }
}

} // verus!
