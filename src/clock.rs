use vstd::prelude::*;

verus! {

/// The Unix timestamp of chrono's earliest `DateTime<Utc>`: January 1 of the
/// year -262143, 00:00:00.
pub const MIN_UTC_SECS: i64 = -8334601228800;

/// The Unix timestamp of chrono's latest `DateTime<Utc>` at a whole second:
/// December 31, 262142, 23:59:59.
pub const MAX_UTC_SECS: i64 = 8210266876799;

/// Whether chrono can hold the instant `timestamp` seconds after the epoch.
pub open spec fn utc_in_range(timestamp: int) -> bool {
    MIN_UTC_SECS <= timestamp <= MAX_UTC_SECS
}

/// The text `YYYY-MM-DD hh:mm:ss +0000` of a Unix timestamp in UTC.
pub uninterp spec fn utc_text_of(timestamp: int) -> Seq<char>;

/// Relies on chrono's `DateTime::<Utc>::from_timestamp`, which gives `None`
/// exactly for seconds outside `DateTime::<Utc>::MIN_UTC ..= MAX_UTC`, and on
/// its `format`, whose text depends on the timestamp alone.
#[verifier::external_body]
pub(crate) fn utc_text(timestamp: i64) -> (r: Option<String>)
    ensures
        r is Some <==> utc_in_range(timestamp as int),
        r matches Some(s) ==> s@ == utc_text_of(timestamp as int),
{
    match chrono::DateTime::<chrono::Utc>::from_timestamp(timestamp, 0) {
        Some(d) => Some(d.format("%Y-%m-%d %H:%M:%S %z").to_string()),
        None => None,
    }
}

} // verus!
