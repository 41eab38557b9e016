use registry_index::container::{decode_dump, decode_table};
use registry_index::package::Crate;
use registry_index::pipeline::process;
use registry_index::rank::{rank, Aggregates};
use registry_index::rows::{
    DependencyRow, PackageRow, Snapshot, TagLink, TagName, VersionCountRow, VersionRow,
};
use registry_index::sort::{compare_bytes, key_before, sort_keys, RankKey, Side};
use registry_index::ingest::IngestError;
use std::collections::{BTreeMap, BTreeSet};

fn package(id: u32, name: &str) -> PackageRow {
    PackageRow {
        id,
        name: name.to_string(),
        description: format!("about {}", name),
        homepage: None,
        documentation: Some(format!("https://docs.example/{}", name)),
        repository: None,
    }
}

fn version(id: u32, crate_id: u32, num: &str, secs: i64, has_lib: bool) -> VersionRow {
    VersionRow { id, crate_id, num: num.to_string(), created_secs: secs, created_nanos: 0, has_lib }
}

fn edge(version_id: u32, crate_id: u32) -> DependencyRow {
    DependencyRow { version_id, crate_id }
}

fn key(order: u32, name: &str, id: u32) -> RankKey {
    RankKey { order, name: name.to_string(), id }
}

fn empty_aggregates(libs: &[u32]) -> Aggregates {
    Aggregates {
        libs: libs.iter().copied().collect::<BTreeSet<u32>>(),
        votes: BTreeMap::new(),
        stable: BTreeMap::new(),
        prerelease: BTreeMap::new(),
        num_versions: BTreeMap::new(),
        keywords: BTreeMap::new(),
        categories: BTreeMap::new(),
    }
}

fn empty_snapshot() -> Snapshot {
    Snapshot {
        crates: vec![],
        versions: vec![],
        dependencies: vec![],
        default_versions: vec![],
        crates_keywords: vec![],
        crates_categories: vec![],
        keywords: vec![],
        categories: vec![],
    }
}

#[test]
fn bytes_compare_in_dictionary_order() {
    assert_eq!(compare_bytes(b"", b""), Side::Same);
    assert_eq!(compare_bytes(b"", b"a"), Side::Before);
    assert_eq!(compare_bytes(b"a", b""), Side::After);
    assert_eq!(compare_bytes(b"abc", b"abd"), Side::Before);
    assert_eq!(compare_bytes(b"abd", b"abc"), Side::After);
    assert_eq!(compare_bytes(b"ab", b"abc"), Side::Before);
    assert_eq!(compare_bytes(b"abc", b"ab"), Side::After);
    assert_eq!(compare_bytes(b"abc", b"abc"), Side::Same);
    assert_eq!(compare_bytes(b"Z", b"a"), Side::Before);
    assert_eq!(compare_bytes(&[0xFF], &[0x01, 0x02]), Side::After);
}

#[test]
fn keys_rank_by_count_then_name_then_id() {
    assert!(key_before(&key(5, "z", 9), &key(4, "a", 1)));
    assert!(!key_before(&key(4, "a", 1), &key(5, "z", 9)));
    assert!(key_before(&key(4, "a", 9), &key(4, "b", 1)));
    assert!(!key_before(&key(4, "b", 1), &key(4, "a", 9)));
    assert!(key_before(&key(4, "a", 1), &key(4, "a", 2)));
    assert!(!key_before(&key(4, "a", 2), &key(4, "a", 1)));
    assert!(!key_before(&key(4, "a", 1), &key(4, "a", 1)));
}

#[test]
fn sort_gives_each_position_once_in_order() {
    let keys = vec![
        key(0, "b", 1),
        key(3, "x", 2),
        key(0, "a", 3),
        key(3, "c", 4),
        key(7, "m", 5),
        key(0, "a", 0),
        key(3, "c", 4),
    ];
    let perm = sort_keys(&keys);
    assert_eq!(perm.len(), 7);
    // positions 3 and 6 hold equal keys and keep their order
    assert_eq!(perm, vec![4, 3, 6, 1, 5, 2, 0]);
    let names: Vec<(u32, &str, u32)> =
        perm.iter().map(|&p| (keys[p].order, keys[p].name.as_str(), keys[p].id)).collect();
    assert_eq!(
        names,
        vec![
            (7, "m", 5),
            (3, "c", 4),
            (3, "c", 4),
            (3, "x", 2),
            (0, "a", 0),
            (0, "a", 3),
            (0, "b", 1)
        ]
    );
    assert_eq!(sort_keys(&vec![]), Vec::<usize>::new());
    assert_eq!(sort_keys(&vec![key(1, "a", 1)]), vec![0]);
}

#[test]
fn sort_handles_many_keys() {
    let mut keys = Vec::new();
    for i in 0..1000u32 {
        keys.push(key((i * 7919) % 13, &format!("n{}", (i * 31) % 17), i));
    }
    let perm = sort_keys(&keys);
    assert_eq!(perm.len(), 1000);
    for w in perm.windows(2) {
        assert!(key_before(&keys[w[0]], &keys[w[1]]));
    }
    let same: Vec<RankKey> = (0..100).map(|_| key(1, "same", 1)).collect();
    assert_eq!(sort_keys(&same), (0..100).collect::<Vec<usize>>());
}

#[test]
fn rank_joins_the_aggregates() {
    let mut agg = empty_aggregates(&[1]);
    agg.votes.insert(1, 12);
    agg.stable.insert(1, "1.2.3".to_string());
    agg.prerelease.insert(1, "2.0.0-rc.1".to_string());
    agg.num_versions.insert(1, 40);
    agg.keywords.insert(1, vec![5, 6]);
    agg.categories.insert(1, vec![9]);
    let mut row = package(1, "alpha");
    row.homepage = Some("https://alpha.example".to_string());
    let ranking = rank(&vec![row], &agg);
    assert_eq!(ranking.ids, vec![1]);
    assert_eq!(
        ranking.crates,
        vec![Crate {
            name: "alpha".to_string(),
            repository: None,
            homepage: Some("https://alpha.example".to_string()),
            documentation: Some("https://docs.example/alpha".to_string()),
            description: "about alpha".to_string(),
            latest_stable_version: Some("1.2.3".to_string()),
            latest_version: Some("2.0.0-rc.1".to_string()),
            categories: vec![9],
            keywords: vec![5, 6],
            num_versions: 40,
            order: 12,
        }]
    );
}

#[test]
fn rank_defaults_what_is_missing() {
    let ranking = rank(&vec![package(1, "alpha")], &empty_aggregates(&[1]));
    let c = &ranking.crates[0];
    assert_eq!(c.order, 0);
    assert_eq!(c.num_versions, 0);
    assert_eq!(c.latest_stable_version, None);
    assert_eq!(c.latest_version, None);
    assert_eq!(c.keywords, Vec::<u32>::new());
    assert_eq!(c.categories, Vec::<u32>::new());
}

#[test]
fn rank_leaves_out_packages_without_a_library() {
    let mut agg = empty_aggregates(&[2]);
    agg.votes.insert(1, 1000);
    agg.votes.insert(2, 1);
    let ranking = rank(&vec![package(1, "tool"), package(2, "lib")], &agg);
    assert_eq!(ranking.ids, vec![2]);
    assert_eq!(ranking.crates.len(), 1);
    assert_eq!(ranking.crates[0].name, "lib");
}

#[test]
fn rank_orders_by_count_descending() {
    let mut agg = empty_aggregates(&[1, 2, 3, 4]);
    agg.votes.insert(1, 5);
    agg.votes.insert(2, 50);
    agg.votes.insert(4, 7);
    let rows = vec![package(1, "a"), package(2, "b"), package(3, "c"), package(4, "d")];
    let ranking = rank(&rows, &agg);
    assert_eq!(ranking.ids, vec![2, 4, 1, 3]);
    let orders: Vec<u32> = ranking.crates.iter().map(|c| c.order).collect();
    assert_eq!(orders, vec![50, 7, 5, 0]);
    for w in orders.windows(2) {
        assert!(w[0] >= w[1]);
    }
}

#[test]
fn rank_breaks_ties_by_name_then_identifier() {
    let mut agg = empty_aggregates(&[1, 2, 3, 4]);
    agg.votes.insert(1, 3);
    agg.votes.insert(2, 3);
    agg.votes.insert(3, 3);
    agg.votes.insert(4, 3);
    let rows = vec![package(4, "same"), package(1, "zeta"), package(2, "alpha"), package(3, "same")];
    let ranking = rank(&rows, &agg);
    assert_eq!(ranking.ids, vec![2, 3, 4, 1]);
}

#[test]
fn rank_takes_the_first_row_of_a_package() {
    let rows = vec![package(1, "first"), package(1, "second"), package(2, "other")];
    let ranking = rank(&rows, &empty_aggregates(&[1, 2]));
    assert_eq!(ranking.ids, vec![1, 2]);
    assert_eq!(ranking.crates[0].name, "first");
    assert_eq!(ranking.crates[1].name, "other");
}

#[test]
fn process_of_nothing_is_empty() {
    let index = process(&empty_snapshot()).unwrap();
    assert!(index.ids.is_empty());
    assert!(index.crates.is_empty());
    assert!(index.keywords.is_empty());
    assert!(index.categories.is_empty());
}

#[test]
fn process_fails_on_a_malformed_version() {
    let mut s = empty_snapshot();
    s.crates = vec![package(1, "a")];
    s.versions = vec![version(1, 1, "1.0.0", 1, true), version(2, 1, "one.two", 2, true)];
    assert_eq!(process(&s).err(), Some(IngestError::VersionParse { version_id: 2 }));
}

#[test]
fn end_to_end_scenario() {
    // A has a library and two versions, B has a library, C has none.
    let (a, b, c) = (1u32, 2u32, 3u32);
    let mut s = empty_snapshot();
    s.crates = vec![package(a, "A"), package(b, "B"), package(c, "C")];
    s.versions = vec![
        version(10, a, "1.0.0", 100, true),
        version(11, a, "1.1.0", 200, true),
        version(20, b, "2.0.0", 300, true),
        version(30, c, "0.1.0", 400, false),
    ];
    s.dependencies = vec![
        edge(11, b), // normal
        edge(11, b), // dev: same target from the same version
        edge(10, c), // from an old version of A
    ];
    let index = process(&s).unwrap();
    assert_eq!(index.ids, vec![b, a]);
    let names: Vec<&str> = index.crates.iter().map(|c| c.name.as_str()).collect();
    assert_eq!(names, vec!["B", "A"]);
    assert_eq!(index.crates[0].order, 1);
    assert_eq!(index.crates[1].order, 0);
    assert_eq!(index.crates[0].latest_stable_version, Some("2.0.0".to_string()));
    assert_eq!(index.crates[1].latest_stable_version, Some("1.1.0".to_string()));
    assert_eq!(index.crates[1].latest_version, None);
}

#[test]
fn process_builds_the_whole_index() {
    let mut s = empty_snapshot();
    s.crates = vec![package(1, "core"), package(2, "util"), package(3, "app"), package(4, "base")];
    s.versions = vec![
        version(10, 1, "1.0.0", 10, true),
        version(11, 1, "1.1.0-beta.1", 20, true),
        version(20, 2, "0.3.0", 30, true),
        version(30, 3, "0.1.0", 40, false),
        version(40, 4, "0.9.0", 50, true),
    ];
    s.dependencies = vec![edge(20, 1), edge(30, 1), edge(30, 2), edge(10, 2), edge(40, 1)];
    s.default_versions = vec![
        VersionCountRow { crate_id: 1, num_versions: Some(2) },
        VersionCountRow { crate_id: 2, num_versions: None },
    ];
    s.crates_keywords = vec![TagLink { crate_id: 1, tag_id: 7 }, TagLink { crate_id: 1, tag_id: 3 }];
    s.crates_categories = vec![TagLink { crate_id: 2, tag_id: 1 }];
    s.keywords = vec![
        TagName { id: 7, name: "seven".to_string() },
        TagName { id: 3, name: "three".to_string() },
        TagName { id: 7, name: "again".to_string() },
    ];
    s.categories = vec![TagName { id: 1, name: "tools".to_string() }];
    let index = process(&s).unwrap();
    // votes: core from 20, 30, 40; util from 30 only (10 is not the most recent of core)
    assert_eq!(index.ids, vec![1, 2, 4]);
    let orders: Vec<u32> = index.crates.iter().map(|c| c.order).collect();
    assert_eq!(orders, vec![3, 1, 0]);
    assert_eq!(index.crates[0].latest_stable_version, Some("1.0.0".to_string()));
    assert_eq!(index.crates[0].latest_version, Some("1.1.0-beta.1".to_string()));
    assert_eq!(index.crates[0].num_versions, 2);
    assert_eq!(index.crates[0].keywords, vec![7, 3]);
    assert_eq!(index.crates[1].categories, vec![1]);
    assert_eq!(index.crates[1].num_versions, 0);
    assert_eq!(index.keywords, vec![(3, "three".to_string()), (7, "seven".to_string())]);
    assert_eq!(index.categories, vec![(1, "tools".to_string())]);
    let files = index.encode();
    assert_eq!(decode_dump(&files.dump), Ok(index.crates.clone()));
    assert_eq!(decode_table(&files.keywords), Ok(index.keywords.clone()));
    assert_eq!(files.categories, vec![1, 0, 0, 0, 5, 0, 0, 0, b't', b'o', b'o', b'l', b's']);
}
