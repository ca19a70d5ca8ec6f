//! Identifiers and time stamps, drawn from the `uuid` and `chrono` crates.
//!
//! Everything here depends on chance or on the clock, so the contracts say
//! only what holds of every outcome.

use vstd::prelude::*;

verus! {

/// A lower-case hexadecimal digit.
pub open spec fn is_lower_hex(c: char) -> bool {
    ('0' <= c && c <= '9') || ('a' <= c && c <= 'f')
}

/// The hyphenated, lower-case text of a random (version 4, RFC 4122
/// variant) UUID: `xxxxxxxx-xxxx-4xxx-yxxx-xxxxxxxxxxxx`, `y` one of
/// `8`, `9`, `a`, `b`.
pub open spec fn is_uuid_v4_text(s: Seq<char>) -> bool {
    &&& s.len() == 36
    &&& forall|i: int|
        0 <= i < 36 ==> if i == 8 || i == 13 || i == 18 || i == 23 {
            #[trigger] s[i] == '-'
        } else if i == 14 {
            s[i] == '4'
        } else if i == 19 {
            s[i] == '8' || s[i] == '9' || s[i] == 'a' || s[i] == 'b'
        } else {
            is_lower_hex(s[i])
        }
}

/// A fresh random identifier: `uuid::Uuid::new_v4().to_string()`.
///
/// The `uuid` crate sets the version nibble to 4 and the variant bits to
/// `10`, and `to_string` writes the hyphenated lower-case form; which
/// identifier comes out is left to chance.
#[verifier::external_body]
pub(crate) fn new_uuid() -> (r: String)
    ensures
        is_uuid_v4_text(r@),
{
    uuid::Uuid::new_v4().to_string()
}

/// RFC 3339 text of a UTC time as chrono writes it: a date of at least four
/// year digits, `T`, the time of day, and the offset `+00:00` (chrono writes
/// a zero offset that way unless asked for `Z`), so at least 25 characters.
pub open spec fn is_utc_rfc3339_text(s: Seq<char>) -> bool {
    &&& s.len() >= 25
    &&& s.subrange(s.len() - 6, s.len() as int) == seq!['+', '0', '0', ':', '0', '0']
}

/// The current time as RFC 3339 text: `chrono::Utc::now().to_rfc3339()`.
///
/// `to_rfc3339` writes the date, the time and then the UTC offset as
/// `+00:00`; which time is written depends on the clock and is not stated.
#[verifier::external_body]
pub(crate) fn now_rfc3339() -> (r: String)
    ensures
        is_utc_rfc3339_text(r@),
{
    chrono::Utc::now().to_rfc3339()
}

/// RFC 3339 text of the instant `hours` hours after the current time (before
/// it when `hours` is negative): `chrono::Utc::now()` plus
/// `chrono::TimeDelta::try_hours(hours)` by `checked_add_signed`, written by
/// `to_rfc3339`; `None` where the hours or the sum fall outside chrono's
/// range.
///
/// Where it is `Some`, the text is UTC RFC 3339 as for `now_rfc3339`; which
/// time it names depends on the clock and is not stated.
#[verifier::external_body]
pub(crate) fn rfc3339_hours_from_now(hours: i64) -> (r: Option<String>)
    ensures
        r matches Some(t) ==> is_utc_rfc3339_text(t@),
{
    let delta = match chrono::TimeDelta::try_hours(hours) {
        Some(d) => d,
        None => return None,
    };
    match chrono::Utc::now().checked_add_signed(delta) {
        Some(t) => Some(t.to_rfc3339()),
        None => None,
    }
}

/// The current instant as whole seconds since the Unix epoch and the
/// nanoseconds past that second: `chrono::Utc::now()` read through
/// `timestamp` and `timestamp_subsec_nanos`.
///
/// Nothing is stated of the instant: it depends on the clock.
#[verifier::external_body]
pub(crate) fn now_instant() -> (i64, u32) {
    let t = chrono::Utc::now();
    (t.timestamp(), t.timestamp_subsec_nanos())
}

/// The instant an RFC 3339 text denotes, as seconds since the Unix epoch and
/// nanoseconds past that second, or `None` where the text does not parse.
pub uninterp spec fn rfc3339_instant(s: Seq<char>) -> Option<(i64, u32)>;

/// Parses RFC 3339 text: `chrono::DateTime::parse_from_rfc3339`, read
/// through `timestamp` and `timestamp_subsec_nanos`; a parse error gives
/// `None`.
#[verifier::external_body]
pub(crate) fn parse_rfc3339_instant(s: &str) -> (r: Option<(i64, u32)>)
    ensures
        r == rfc3339_instant(s@),
{
    match chrono::DateTime::parse_from_rfc3339(s) {
        Ok(t) => Some((t.timestamp(), t.timestamp_subsec_nanos())),
        Err(_) => None,
    }
}

} // verus!
