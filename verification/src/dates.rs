//! The calendar computations this library has from `chrono`.

use std::fmt::Write;
use chrono::DateTime;
use vstd::prelude::*;

verus! {

/// The instant that an RFC 2822 date-time text names, as `chrono` reads it:
/// seconds since the Unix epoch and the nanoseconds past that second, or
/// nothing when the text is no RFC 2822 date-time.
pub uninterp spec fn rfc2822_instant(text: Seq<char>) -> Option<(i64, u32)>;

/// Reads an RFC 2822 date-time with `chrono::DateTime::parse_from_rfc2822`.
///
/// Claims only that the result is `rfc2822_instant` of the text: the UTC
/// instant that `timestamp` and `timestamp_subsec_nanos` give for the
/// parsed value, or `None` where `chrono` reports a parse error. Which
/// texts parse, and to what, is left to `chrono`.
#[verifier::external_body]
pub(crate) fn parse_rfc2822(text: &str) -> (r: Option<(i64, u32)>)
    ensures
        r == rfc2822_instant(text@),
{
    match DateTime::parse_from_rfc2822(text) {
        Ok(t) => Some((t.timestamp(), t.timestamp_subsec_nanos())),
        Err(_) => None,
    }
}

/// The text that `chrono` writes for the UTC instant `secs` seconds and
/// `nanos` nanoseconds after the Unix epoch with the strftime-style
/// `pattern`, or nothing when `chrono` has no such instant or the pattern
/// does not format.
pub uninterp spec fn utc_format_text(secs: i64, nanos: u32, pattern: Seq<char>) -> Option<Seq<char>>;

/// Formats a UTC instant with `chrono::DateTime::from_timestamp` and
/// `chrono::DateTime::format`.
///
/// Claims only that the result is `utc_format_text` of the arguments: the
/// text written, `None` where `from_timestamp` has no such instant or the
/// formatting reports an error. The calendar itself is left to `chrono`.
#[verifier::external_body]
pub(crate) fn format_utc(secs: i64, nanos: u32, pattern: &str) -> (r: Option<String>)
    ensures
        r matches Some(s) ==> utc_format_text(secs, nanos, pattern@) == Some(s@),
        r is None ==> utc_format_text(secs, nanos, pattern@) is None,
{
    match DateTime::from_timestamp(secs, nanos) {
        Some(t) => {
            let mut out = String::new();
            match write!(out, "{}", t.format(pattern)) {
                Ok(()) => Some(out),
                Err(_) => None,
            }
        },
        None => None,
    }
}

} // verus!
