use vstd::prelude::*;

verus! {

/// The instant that RFC 3339 text `s` names, in nanoseconds since the Unix
/// epoch; `None` when `s` is not RFC 3339 or the instant does not fit.
pub uninterp spec fn rfc3339_nanos(s: Seq<char>) -> Option<i64>;

/// Relies on chrono's `DateTime::parse_from_rfc3339` followed by
/// `DateTime::timestamp_nanos_opt`: the result depends on the text alone.
#[verifier::external_body]
pub(crate) fn parse_rfc3339(s: &str) -> (r: Option<i64>)
    ensures
        r == rfc3339_nanos(s@),
{
    match chrono::DateTime::parse_from_rfc3339(s) {
        Ok(dt) => dt.timestamp_nanos_opt(),
        Err(_) => None,
    }
}

} // verus!
