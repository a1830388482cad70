//! Timestamps written as text, through the `time` crate.
use vstd::prelude::*;
use crate::utility::DateFormat;

verus! {

/// The layout of a date shown beside a version.
pub const DATE_FORMAT_DISPLAY: &'static str = "[weekday repr:short] [month repr:short] [day] [hour]:[minute]:[second] [year]";

/// The layout of a date inside a snapshot name.
pub const DATE_FORMAT_TIMESTAMP: &'static str = "[year]-[month]-[day]-[hour]:[minute]:[second]";

/// The layout string of a date format.
pub fn date_string_format(format: &DateFormat) -> (r: &'static str)
    ensures
        *format == DateFormat::Display ==> r@ == DATE_FORMAT_DISPLAY@,
        *format == DateFormat::Timestamp ==> r@ == DATE_FORMAT_TIMESTAMP@,
{
    match format {
        DateFormat::Display => DATE_FORMAT_DISPLAY,
        DateFormat::Timestamp => DATE_FORMAT_TIMESTAMP,
    }
}

/// The text that the `time` crate writes for the instant `nanos` nanoseconds after the epoch,
/// seen at `offset_secs` seconds from UTC, in the layout `pattern`; `None` where it cannot.
pub uninterp spec fn date_text(nanos: nat, offset_secs: int, pattern: Seq<char>) -> Option<Seq<char>>;

/// Relies on time's `format_description::parse_borrowed`, `OffsetDateTime::from_unix_timestamp_nanos`,
/// `UtcOffset::from_whole_seconds`, `OffsetDateTime::checked_to_offset` and
/// `OffsetDateTime::format`: the text depends on the instant, the offset and the layout alone,
/// and each failure of these calls gives `None`.
#[verifier::external_body]
fn format_instant(nanos: u64, offset_secs: i32, pattern: &str) -> (r: Option<String>)
    ensures
        r is Some <==> date_text(nanos as nat, offset_secs as int, pattern@) is Some,
        r is Some ==> r->0@ == date_text(nanos as nat, offset_secs as int, pattern@)->0,
{
    let items = time::format_description::parse_borrowed::<1>(pattern).ok()?;
    let instant = time::OffsetDateTime::from_unix_timestamp_nanos(nanos as i128).ok()?;
    let offset = time::UtcOffset::from_whole_seconds(offset_secs).ok()?;
    instant.checked_to_offset(offset)?.format(&items).ok()
}

/// `raw` with the UTC marker that a zero offset gets: `_UTC` in a timestamp, ` UTC` on display.
pub open spec fn utc_suffixed_spec(raw: Seq<char>, offset_secs: int, format: DateFormat) -> Seq<char> {
    if offset_secs != 0 {
        raw
    } else if format == DateFormat::Timestamp {
        raw + seq!['_', 'U', 'T', 'C']
    } else {
        raw + seq![' ', 'U', 'T', 'C']
    }
}

/// Adds the UTC marker to a formatted date where the offset is zero.
pub fn utc_suffixed(raw: String, offset_secs: i32, format: DateFormat) -> (r: String)
    ensures
        r@ == utc_suffixed_spec(raw@, offset_secs as int, format),
{
    let mut r = raw;
    if offset_secs == 0 {
        proof {
            reveal_strlit("_UTC");
            reveal_strlit(" UTC");
        }
        match format {
            DateFormat::Timestamp => r.append("_UTC"),
            DateFormat::Display => r.append(" UTC"),
        }
        proof {
            assert("_UTC"@ =~= seq!['_', 'U', 'T', 'C']);
            assert(" UTC"@ =~= seq![' ', 'U', 'T', 'C']);
        }
    }
    r
}

/// The date of the instant `modify_time` (nanoseconds after the epoch) at `offset_secs` from
/// UTC, in the given format, marked when the offset is UTC; `None` where it cannot be written.
pub fn date_string(modify_time: u64, offset_secs: i32, format: DateFormat) -> (r: Option<String>)
    ensures
        r is Some <==> date_text(
            modify_time as nat,
            offset_secs as int,
            if format == DateFormat::Display {
                DATE_FORMAT_DISPLAY@
            } else {
                DATE_FORMAT_TIMESTAMP@
            },
        ) is Some,
        r is Some ==> r->0@ == utc_suffixed_spec(
            date_text(
                modify_time as nat,
                offset_secs as int,
                if format == DateFormat::Display {
                    DATE_FORMAT_DISPLAY@
                } else {
                    DATE_FORMAT_TIMESTAMP@
                },
            )->0,
            offset_secs as int,
            format,
        ),
{
    let pattern = date_string_format(&format);
    match format_instant(modify_time, offset_secs, pattern) {
        None => None,
        Some(raw) => Some(utc_suffixed(raw, offset_secs, format)),
    }
}

} // verus!
