//! The wall clock and timestamp display, through `chrono`.
//!
//! The current time depends on the machine, so nothing is promised of its
//! value; every caller's contract holds whatever timestamp comes back.

use vstd::prelude::*;

verus! {

/// The display form of an RFC 3339 timestamp: what `format_iso_date`
/// returns for a parsable input.  The result of the reformatting depends on
/// the input text alone.
pub uninterp spec fn reformatted_iso(s: Seq<char>) -> Option<Seq<char>>;

/// Relies on `chrono::Utc::now` and `DateTime::to_rfc3339`: the current
/// time as an RFC 3339 text.  The clock decides the value; only
/// non-emptiness is assumed, since `to_rfc3339` always renders date and
/// time digits.
#[verifier::external_body]
pub(crate) fn now_rfc3339() -> (r: String)
    ensures
        r@.len() > 0,
{
    chrono::Utc::now().to_rfc3339()
}

/// Relies on `chrono::DateTime::parse_from_rfc3339` and
/// `chrono::DateTime::format`: reformats an RFC 3339 timestamp for display
/// as `DD Mon YYYY, HH:MM UTC`, or reports that the text does not parse.
/// Both steps read the text alone, so the outcome is a function of it.
#[verifier::external_body]
fn reformat_rfc3339(s: &str) -> (r: Option<String>)
    ensures
        ({
            match reformatted_iso(s@) {
                Some(t) => r is Some && r.unwrap()@ == t,
                None => r is None,
            }
        }),
{
    match chrono::DateTime::parse_from_rfc3339(s) {
        Ok(datetime) => Some(datetime.format("%d %b %Y, %H:%M UTC").to_string()),
        Err(_) => None,
    }
}

/// Renders an RFC 3339 timestamp for display; a text that does not parse is
/// shown as it is.
pub fn format_iso_date(iso_string: &str) -> (r: String)
    ensures
        ({
            match reformatted_iso(iso_string@) {
                Some(t) => r@ == t,
                None => r@ == iso_string@,
            }
        }),
{
    match reformat_rfc3339(iso_string) {
        Some(formatted) => formatted,
        None => String::from_str(iso_string),
    }
}

} // verus!
