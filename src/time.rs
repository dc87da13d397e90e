//! Timestamps of track points (`YYYY-MM-DD HH:MM:SS`, local time of the
//! device's zone, Asia/Tokyo) read through chrono and chrono-tz.

use vstd::prelude::*;

verus! {

/// Seconds since the Unix epoch of a local timestamp, when it parses and
/// names exactly one instant.
pub uninterp spec fn local_seconds_of(t: Seq<u8>) -> Option<i64>;

/// The timestamp written as ISO-8601 with the zone's offset, when it parses
/// and names exactly one instant.
pub uninterp spec fn local_iso_text_of(t: Seq<u8>) -> Option<Seq<u8>>;

/// Relies on chrono's `NaiveDateTime::parse_from_str` (format
/// `%Y-%m-%d %H:%M:%S`), chrono-tz's `Asia::Tokyo` through
/// `TimeZone::from_local_datetime(..).single()`, and `DateTime::timestamp`:
/// the result is a function of the text alone.
#[verifier::external_body]
pub(crate) fn local_seconds(t: &[u8]) -> (r: Option<i64>)
    ensures
        r == local_seconds_of(t@),
{
    let s = std::str::from_utf8(t).ok()?;
    let naive = chrono::NaiveDateTime::parse_from_str(s, "%Y-%m-%d %H:%M:%S").ok()?;
    let local = chrono::TimeZone::from_local_datetime(&chrono_tz::Asia::Tokyo, &naive).single()?;
    Some(local.timestamp())
}

/// Relies on chrono's `NaiveDateTime::parse_from_str` (format
/// `%Y-%m-%d %H:%M:%S`), chrono-tz's `Asia::Tokyo` through
/// `TimeZone::from_local_datetime(..).single()`, and `DateTime::format` with
/// `%Y-%m-%dT%H:%M:%S%:z`: the result is a function of the text alone.
#[verifier::external_body]
pub(crate) fn local_iso_text(t: &[u8]) -> (r: Option<Vec<u8>>)
    ensures
        match r {
            Some(v) => local_iso_text_of(t@) == Some(v@),
            None => local_iso_text_of(t@) is None,
        },
{
    let s = std::str::from_utf8(t).ok()?;
    let naive = chrono::NaiveDateTime::parse_from_str(s, "%Y-%m-%d %H:%M:%S").ok()?;
    let local = chrono::TimeZone::from_local_datetime(&chrono_tz::Asia::Tokyo, &naive).single()?;
    Some(local.format("%Y-%m-%dT%H:%M:%S%:z").to_string().into_bytes())
}

} // verus!
