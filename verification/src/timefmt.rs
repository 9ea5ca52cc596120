//! Timestamp rendering: seconds since the Unix epoch become ISO-8601 UTC
//! strings with second precision, falling back to the epoch string when the
//! time is missing or unrepresentable.
use vstd::prelude::*;

verus! {

/// The ISO-8601 UTC rendering (`YYYY-MM-DDThh:mm:ssZ`) of a number of
/// seconds since the Unix epoch, as the calendar library produces it.
pub uninterp spec fn iso_utc_of(secs: i64) -> Seq<char>;

/// The last second the renderer is relied on for: 9999-12-31T23:59:59Z.
pub open spec fn max_render_secs() -> int {
    253_402_300_799
}

/// Relies on chrono's `DateTime::<Utc>::from_timestamp`, which returns
/// `None` only for an out-of-range seconds value (every value up to year
/// 9999 is in range), and on its `format`/`to_string` rendering, whose text
/// depends on the seconds value alone.
#[verifier::external_body]
fn format_unix_seconds(secs: i64) -> (r: Option<String>)
    ensures
        0 <= secs <= max_render_secs() ==> r is Some,
        r matches Some(s) ==> s@ == iso_utc_of(secs),
{
    chrono::DateTime::<chrono::Utc>::from_timestamp(secs, 0).map(
        |dt| dt.format("%Y-%m-%dT%H:%M:%SZ").to_string(),
    )
}

/// Relies on std's `SystemTime::now`: the wall clock read as whole seconds
/// since the Unix epoch. A clock set before the epoch reads as zero rather
/// than failing; nothing more is assumed of the clock.
#[verifier::external_body]
fn now_unix_seconds() -> (r: u64) {
    std::time::SystemTime::now()
        .duration_since(std::time::UNIX_EPOCH)
        .map(|d| d.as_secs())
        .unwrap_or(0)
}

/// The epoch fallback string.
pub open spec fn epoch_iso() -> Seq<char> {
    "1970-01-01T00:00:00Z"@
}

/// The current wall-clock time as an ISO-8601 UTC string: whatever second
/// the clock reads, rendered; an unrepresentable reading falls back to the
/// epoch string. Total — a broken clock never aborts anything.
pub fn now_utc_iso() -> (r: String)
    ensures
        (exists|s: i64| 0 <= s <= max_render_secs() && r@ == iso_utc_of(s)) || r@ == epoch_iso(),
{
    let secs = now_unix_seconds();
    let out = modified_time_string(Some(secs));
    proof {
        if secs <= max_render_secs() {
            assert(0 <= secs as i64 <= max_render_secs() && out@ == iso_utc_of(secs as i64));
        }
    }
    out
}

/// Renders a file's modification time: the ISO-8601 UTC string of the
/// seconds since the epoch; a missing or unrepresentable time falls back to
/// the epoch string rather than failing.
pub fn modified_time_string(mtime_secs: Option<u64>) -> (r: String)
    ensures
        match mtime_secs {
            Option::Some(s) => if s <= max_render_secs() {
                r@ == iso_utc_of(s as i64)
            } else {
                r@ == epoch_iso()
            },
            Option::None => r@ == epoch_iso(),
        },
{
    match mtime_secs {
        Some(s) => {
            if s <= 253_402_300_799 {
                match format_unix_seconds(s as i64) {
                    Some(out) => out,
                    None => "1970-01-01T00:00:00Z".to_owned(),
                }
            } else {
                "1970-01-01T00:00:00Z".to_owned()
            }
        },
        None => "1970-01-01T00:00:00Z".to_owned(),
    }
}

} // verus!
