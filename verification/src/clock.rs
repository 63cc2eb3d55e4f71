//! Points in time as people write them, in UTC.
use vstd::prelude::*;

verus! {

/// The time so many milliseconds after the start of 1970 in ISO 8601, if it
/// is in the range of the calendar.
pub uninterp spec fn utc_text(millis: i64) -> Option<Seq<char>>;

/// The time so many nanoseconds after the start of 1970 as date and clock
/// reading, written `%Y%m%d-%H%M%S`, if it is in the range of the calendar.
pub uninterp spec fn utc_stamp(nanos: i128) -> Option<Seq<char>>;

/// Makes a `jiff::Timestamp` with `from_millisecond` and writes it with its
/// `Display`. Claimed: what comes out depends on the number alone.
#[verifier::external_body]
fn display_timestamp(millis: i64) -> (r: Option<String>)
    ensures
        match r {
            Some(text) => utc_text(millis) == Some(text@),
            None => utc_text(millis) is None,
        },
{
    match jiff::Timestamp::from_millisecond(millis) {
        Ok(timestamp) => Some(timestamp.to_string()),
        Err(_) => None,
    }
}

/// Makes a `jiff::Timestamp` with `from_nanosecond` and writes it with
/// `strftime`. Claimed: what comes out depends on the number alone.
#[verifier::external_body]
fn strftime_timestamp(nanos: i128) -> (r: Option<String>)
    ensures
        match r {
            Some(text) => utc_stamp(nanos) == Some(text@),
            None => utc_stamp(nanos) is None,
        },
{
    match jiff::Timestamp::from_nanosecond(nanos) {
        Ok(timestamp) => Some(timestamp.strftime("%Y%m%d-%H%M%S").to_string()),
        Err(_) => None,
    }
}

/// Reads the system clock into a `jiff::Timestamp` and takes its nanoseconds
/// since the start of 1970. Nothing is claimed of them; `None` if the clock
/// is out of the range of the calendar.
#[verifier::external_body]
pub(crate) fn system_nanos() -> (r: Option<i128>) {
    match jiff::Timestamp::try_from(std::time::SystemTime::now()) {
        Ok(timestamp) => Some(timestamp.as_nanosecond()),
        Err(_) => None,
    }
}

/// A time in ISO 8601.
pub fn utc_time(millis: i64) -> (r: Option<String>)
    ensures
        match r {
            Some(text) => utc_text(millis) == Some(text@),
            None => utc_text(millis) is None,
        },
{
    display_timestamp(millis)
}

/// A time as date and clock reading.
pub fn utc_date_time(nanos: i128) -> (r: Option<String>)
    ensures
        match r {
            Some(text) => utc_stamp(nanos) == Some(text@),
            None => utc_stamp(nanos) is None,
        },
{
    strftime_timestamp(nanos)
}

} // verus!
