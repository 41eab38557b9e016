use registry_index::fetch::{decide, plan_fetch, FetchPlan};

const EARLY: &str = "Tue, 1 Jul 2003 10:52:37 +0200";
const LATE: &str = "Wed, 18 Feb 2015 23:16:09 GMT";

#[test]
fn decide_without_remote_date() {
    assert_eq!(decide(None, None), FetchPlan::NoRemoteDate);
    assert_eq!(decide(Some((5, 0)), None), FetchPlan::NoRemoteDate);
}

#[test]
fn decide_without_local_date() {
    assert_eq!(decide(None, Some((7, 9))), FetchPlan::Download { secs: 7, nanos: 9 });
}

#[test]
fn decide_compares_seconds_then_nanoseconds() {
    assert_eq!(decide(Some((5, 0)), Some((6, 0))), FetchPlan::Download { secs: 6, nanos: 0 });
    assert_eq!(decide(Some((5, 1)), Some((5, 2))), FetchPlan::Download { secs: 5, nanos: 2 });
    assert_eq!(decide(Some((5, 2)), Some((5, 2))), FetchPlan::UpToDate);
    assert_eq!(decide(Some((5, 3)), Some((5, 2))), FetchPlan::UpToDate);
    assert_eq!(decide(Some((6, 0)), Some((5, 999))), FetchPlan::UpToDate);
    assert_eq!(decide(Some((-1, 0)), Some((0, 0))), FetchPlan::Download { secs: 0, nanos: 0 });
}

#[test]
fn plan_reads_rfc2822_dates() {
    assert_eq!(
        plan_fetch(EARLY, Some(LATE)),
        FetchPlan::Download { secs: 1424301369, nanos: 0 }
    );
    assert_eq!(plan_fetch(LATE, Some(EARLY)), FetchPlan::UpToDate);
    assert_eq!(plan_fetch(LATE, Some(LATE)), FetchPlan::UpToDate);
}

#[test]
fn plan_takes_the_time_zone_into_account() {
    // the same instant, written in two zones
    assert_eq!(
        plan_fetch("Tue, 1 Jul 2003 08:52:37 +0000", Some(EARLY)),
        FetchPlan::UpToDate
    );
    assert_eq!(
        plan_fetch("Tue, 1 Jul 2003 08:52:36 +0000", Some(EARLY)),
        FetchPlan::Download { secs: 1057049557, nanos: 0 }
    );
}

#[test]
fn plan_trims_the_local_date() {
    assert_eq!(plan_fetch("  Wed, 18 Feb 2015 23:16:09 GMT\n", Some(EARLY)), FetchPlan::UpToDate);
}

#[test]
fn plan_with_unreadable_local_date_downloads() {
    assert_eq!(
        plan_fetch("yesterday", Some(EARLY)),
        FetchPlan::Download { secs: 1057049557, nanos: 0 }
    );
    assert_eq!(plan_fetch("", Some(EARLY)), FetchPlan::Download { secs: 1057049557, nanos: 0 });
}

#[test]
fn plan_without_readable_header() {
    assert_eq!(plan_fetch(LATE, None), FetchPlan::NoRemoteDate);
    assert_eq!(plan_fetch(LATE, Some("not a date")), FetchPlan::NoRemoteDate);
    // the header is taken as it is: a trailing line break makes it unreadable
    assert_eq!(plan_fetch(EARLY, Some("Wed, 18 Feb 2015 23:16:09 GMT\n")), FetchPlan::NoRemoteDate);
}
