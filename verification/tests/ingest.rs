use registry_index::ingest::{
    latest_versions, library_packages, most_recent_versions, name_table, tag_lists,
    version_counts, IngestError,
};
use registry_index::reduce::count_votes;
use registry_index::rows::{DependencyRow, TagLink, TagName, VersionCountRow, VersionRow};
use std::collections::BTreeSet;

fn version(id: u32, crate_id: u32, num: &str, secs: i64, has_lib: bool) -> VersionRow {
    VersionRow { id, crate_id, num: num.to_string(), created_secs: secs, created_nanos: 0, has_lib }
}

fn edge(version_id: u32, crate_id: u32) -> DependencyRow {
    DependencyRow { version_id, crate_id }
}

fn set(items: &[u32]) -> BTreeSet<u32> {
    items.iter().copied().collect()
}

#[test]
fn library_packages_need_one_version_with_a_library() {
    let versions = vec![
        version(1, 10, "1.0.0", 1, false),
        version(2, 10, "1.1.0", 2, true),
        version(3, 11, "0.1.0", 3, false),
        version(4, 12, "0.1.0", 4, true),
        version(5, 11, "0.2.0", 5, false),
    ];
    assert_eq!(library_packages(&versions), set(&[10, 12]));
    assert_eq!(library_packages(&vec![]), set(&[]));
}

#[test]
fn most_recent_version_is_the_latest_created() {
    let versions = vec![
        version(1, 10, "1.0.0", 100, true),
        version(2, 10, "1.1.0", 300, true),
        version(3, 10, "0.9.0", 200, true),
        version(4, 11, "2.0.0", 50, true),
    ];
    let recent = most_recent_versions(&versions);
    assert_eq!(recent.versions, set(&[2, 4]));
    assert_eq!(recent.by_package.get(&10), Some(&2));
    assert_eq!(recent.by_package.get(&11), Some(&4));
    assert_eq!(recent.by_package.len(), 2);
    let none = most_recent_versions(&vec![]);
    assert!(none.versions.is_empty() && none.by_package.is_empty());
}

#[test]
fn most_recent_version_goes_by_time_not_by_number() {
    let versions = vec![version(1, 10, "2.0.0", 100, true), version(2, 10, "1.0.1", 101, true)];
    assert_eq!(most_recent_versions(&versions).versions, set(&[2]));
}

#[test]
fn most_recent_version_keeps_the_first_on_a_tie() {
    let versions = vec![
        version(7, 10, "1.0.0", 100, true),
        version(8, 10, "1.0.1", 100, true),
        version(9, 10, "1.0.2", 100, true),
    ];
    assert_eq!(most_recent_versions(&versions).versions, set(&[7]));
    assert_eq!(most_recent_versions(&versions).by_package.get(&10), Some(&7));
}

#[test]
fn most_recent_version_compares_nanoseconds() {
    let mut a = version(1, 10, "1.0.0", 100, true);
    a.created_nanos = 5;
    let mut b = version(2, 10, "1.0.1", 100, true);
    b.created_nanos = 6;
    let mut c = version(3, 10, "1.0.2", 99, true);
    c.created_nanos = 999_999_999;
    assert_eq!(most_recent_versions(&vec![a, b, c]).versions, set(&[2]));
}

#[test]
fn latest_versions_are_tracked_by_kind() {
    let versions = vec![
        version(1, 10, "1.9.0", 1, true),
        version(2, 10, "1.10.0", 2, true),
        version(3, 10, "1.2.0", 3, true),
        version(4, 10, "2.0.0-alpha.1", 4, true),
        version(5, 10, "2.0.0-alpha.beta", 5, true),
        version(6, 10, "2.0.0-alpha", 6, true),
        version(7, 11, "0.1.0-rc.1", 7, true),
        version(8, 12, "3.0.0", 8, true),
    ];
    let found = latest_versions(&versions).unwrap();
    assert_eq!(found.stable.get(&10), Some(&"1.10.0".to_string()));
    assert_eq!(found.prerelease.get(&10), Some(&"2.0.0-alpha.beta".to_string()));
    assert_eq!(found.stable.get(&11), None);
    assert_eq!(found.prerelease.get(&11), Some(&"0.1.0-rc.1".to_string()));
    assert_eq!(found.stable.get(&12), Some(&"3.0.0".to_string()));
    assert_eq!(found.prerelease.get(&12), None);
    assert_eq!(found.stable.len(), 2);
    assert_eq!(found.prerelease.len(), 2);
}

#[test]
fn latest_prerelease_may_be_below_latest_stable() {
    let versions =
        vec![version(1, 10, "2.0.0", 1, true), version(2, 10, "1.0.0-beta", 2, true)];
    let found = latest_versions(&versions).unwrap();
    assert_eq!(found.stable.get(&10), Some(&"2.0.0".to_string()));
    assert_eq!(found.prerelease.get(&10), Some(&"1.0.0-beta".to_string()));
}

#[test]
fn pre_release_numbers_compare_numerically() {
    let versions = vec![
        version(1, 10, "1.0.0-rc.9", 1, true),
        version(2, 10, "1.0.0-rc.11", 2, true),
        version(3, 10, "1.0.0-rc.2", 3, true),
    ];
    let found = latest_versions(&versions).unwrap();
    assert_eq!(found.prerelease.get(&10), Some(&"1.0.0-rc.11".to_string()));
}

#[test]
fn build_metadata_does_not_make_a_pre_release() {
    let versions = vec![version(1, 10, "1.0.0+build.5", 1, true)];
    let found = latest_versions(&versions).unwrap();
    assert_eq!(found.stable.get(&10), Some(&"1.0.0+build.5".to_string()));
    assert_eq!(found.prerelease.get(&10), None);
}

#[test]
fn malformed_version_is_fatal() {
    let versions = vec![
        version(1, 10, "1.0.0", 1, true),
        version(2, 10, "1.0", 2, true),
        version(3, 10, "banana", 3, true),
    ];
    assert_eq!(
        latest_versions(&versions).err(),
        Some(IngestError::VersionParse { version_id: 2 })
    );
    let versions = vec![version(44, 10, "01.0.0", 1, true)];
    assert_eq!(
        latest_versions(&versions).err(),
        Some(IngestError::VersionParse { version_id: 44 })
    );
    let versions = vec![version(45, 10, "", 1, true)];
    assert_eq!(
        latest_versions(&versions).err(),
        Some(IngestError::VersionParse { version_id: 45 })
    );
}

#[test]
fn version_counts_default_to_zero_and_last_row_decides() {
    let rows = vec![
        VersionCountRow { crate_id: 1, num_versions: Some(5) },
        VersionCountRow { crate_id: 2, num_versions: None },
        VersionCountRow { crate_id: 1, num_versions: Some(7) },
    ];
    let counts = version_counts(&rows);
    assert_eq!(counts.get(&1), Some(&7));
    assert_eq!(counts.get(&2), Some(&0));
    assert_eq!(counts.get(&3), None);
}

#[test]
fn tag_lists_keep_order_and_repeats() {
    let links = vec![
        TagLink { crate_id: 1, tag_id: 30 },
        TagLink { crate_id: 2, tag_id: 10 },
        TagLink { crate_id: 1, tag_id: 20 },
        TagLink { crate_id: 1, tag_id: 30 },
    ];
    let lists = tag_lists(&links);
    assert_eq!(lists.get(&1), Some(&vec![30, 20, 30]));
    assert_eq!(lists.get(&2), Some(&vec![10]));
    assert_eq!(lists.get(&3), None);
}

#[test]
fn name_table_has_one_entry_per_identifier() {
    let rows = vec![
        TagName { id: 5, name: "web".to_string() },
        TagName { id: 2, name: "cli".to_string() },
        TagName { id: 5, name: "www".to_string() },
        TagName { id: 9, name: "async".to_string() },
        TagName { id: 2, name: "cli".to_string() },
    ];
    let table = name_table(&rows);
    assert_eq!(
        table,
        vec![(2, "cli".to_string()), (5, "web".to_string()), (9, "async".to_string())]
    );
    assert_eq!(name_table(&vec![]), vec![]);
}

#[test]
fn votes_count_each_pair_once() {
    let deps = vec![edge(1, 100), edge(1, 100), edge(1, 100), edge(2, 100), edge(1, 200)];
    let counts = count_votes(&deps, &set(&[1, 2]));
    assert_eq!(counts.get(&100), Some(&2));
    assert_eq!(counts.get(&200), Some(&1));
    assert_eq!(counts.len(), 2);
}

#[test]
fn votes_come_from_most_recent_versions_only() {
    let deps = vec![edge(1, 100), edge(2, 100), edge(3, 200), edge(3, 100)];
    let counts = count_votes(&deps, &set(&[2]));
    assert_eq!(counts.get(&100), Some(&1));
    assert_eq!(counts.get(&200), None);
    let none = count_votes(&deps, &set(&[]));
    assert!(none.is_empty());
}

#[test]
fn repeated_edge_changes_no_count() {
    let deps = vec![edge(1, 100), edge(2, 100), edge(2, 300)];
    let mut more = deps.clone();
    more.push(edge(2, 100));
    let recent = set(&[1, 2]);
    assert_eq!(count_votes(&deps, &recent), count_votes(&more, &recent));
}
