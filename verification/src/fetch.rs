//! Decides whether a new snapshot has to be fetched, from the date of the
//! snapshot at hand and the date that the registry reports.

use vstd::prelude::*;

verus! {

/// A point in time: whole seconds since the epoch, and the nanoseconds
/// beyond them.
pub type Instant = (i64, u32);

/// What to do about the snapshot.
#[derive(Debug, Clone, Copy, PartialEq, Eq, Structural)]
pub enum FetchPlan {
    /// The registry's snapshot is newer, or none is at hand: fetch it. The
    /// fields are the registry's date.
    Download { secs: i64, nanos: u32 },
    /// The snapshot at hand is as new as the registry's.
    UpToDate,
    /// The registry reported no date that can be read.
    NoRemoteDate,
}

/// The point in time that `chrono::DateTime::parse_from_rfc2822` reads from
/// `text`, and nothing where it rejects the text.
pub uninterp spec fn rfc2822_instant(text: Seq<char>) -> Option<Instant>;

/// What `str::trim` leaves of `text`.
pub uninterp spec fn trimmed(text: Seq<char>) -> Seq<char>;

/// Calls `chrono::DateTime::parse_from_rfc2822` and hands out the point in
/// time that was read, as `timestamp` and `timestamp_subsec_nanos` give it.
/// The contract gives the result a name.
#[verifier::external_body]
fn parse_rfc2822(text: &str) -> (r: Option<Instant>)
    ensures
        r == rfc2822_instant(text@),
{
    match chrono::DateTime::parse_from_rfc2822(text) {
        Ok(date) => Some((date.timestamp(), date.timestamp_subsec_nanos())),
        Err(_) => None,
    }
}

/// Calls `str::trim`. The contract gives the result a name.
#[verifier::external_body]
fn trim(text: &str) -> (r: &str)
    ensures
        r@ == trimmed(text@),
{
    text.trim()
}

/// Whether `a` is later than `b`.
pub open spec fn instant_later(a: Instant, b: Instant) -> bool {
    a.0 > b.0 || (a.0 == b.0 && a.1 > b.1)
}

/// The plan for a snapshot of date `local`, if one is at hand, when the
/// registry reports date `remote`, if it reports one.
pub open spec fn fetch_plan(local: Option<Instant>, remote: Option<Instant>) -> FetchPlan {
    match remote {
        None => FetchPlan::NoRemoteDate,
        Some(r) => if local matches Some(l) && !instant_later(r, l) {
            FetchPlan::UpToDate
        } else {
            FetchPlan::Download { secs: r.0, nanos: r.1 }
        },
    }
}

/// Decides what to do about the snapshot: fetch it if the registry's date
/// is later than the local one or there is no local one.
pub fn decide(local: Option<Instant>, remote: Option<Instant>) -> (plan: FetchPlan)
    ensures
        plan == fetch_plan(local, remote),
{
    match remote {
        None => FetchPlan::NoRemoteDate,
        Some(r) => {
            let fresh: bool = match local {
                None => true,
                Some(l) => r.0 > l.0 || (r.0 == l.0 && r.1 > l.1),
            };
            if fresh {
                FetchPlan::Download { secs: r.0, nanos: r.1 }
            } else {
                FetchPlan::UpToDate
            }
        },
    }
}

/// The date that a header reports, if there is a header and it can be read.
pub open spec fn header_instant(header: Option<&str>) -> Option<Instant> {
    match header {
        Some(text) => rfc2822_instant(text@),
        None => None,
    }
}

/// Decides what to do about the snapshot, from the date that was recorded
/// for the snapshot at hand, which may be surrounded by blanks, and from
/// the `Last-Modified` header of the registry's snapshot, if it sent one.
/// Both are read as RFC 2822 dates; a local date that cannot be read counts
/// as none.
pub fn plan_fetch(last: &str, last_modified: Option<&str>) -> (plan: FetchPlan)
    ensures
        plan == fetch_plan(rfc2822_instant(trimmed(last@)), header_instant(last_modified)),
{
    let local = parse_rfc2822(trim(last));
    let remote = match last_modified {
        Some(text) => parse_rfc2822(text),
        None => None,
    };
    decide(local, remote)
}

} // verus!
