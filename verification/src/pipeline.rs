//! The whole transform: from the rows of a snapshot to the ranked packages
//! and the two tables of names.

use crate::container::{crate_views, dump, encode_dump, encode_table, entry_views, table};
use crate::ingest::{
    is_first_malformed, is_name_table, latest, latest_versions, lemma_no_library_version,
    lemma_older_version_is_not_recent,
    library_packages, libs, most_recent_ids, most_recent_versions, name_table, num_versions,
    tag_lists, tags_of, version_counts, IngestError, later,
};
use crate::package::{Crate, CrateView};
use crate::rank::{joined, joined_all, lemma_library_only, rank, ranking_of, Aggregates};
use crate::reduce::{count_votes, lemma_stale_edge_counts_nothing, popularity};
use crate::rows::{DependencyRow, PackageRow, Snapshot, VersionRow};
use crate::version::is_version;
use crate::wire::option_text;
use vstd::prelude::*;

verus! {

/// What is written of a snapshot: the ranked packages, `crates[a]` being
/// the record of package `ids[a]`, and the tables of keyword names and of
/// category names.
pub struct Index {
    pub ids: Vec<u32>,
    pub crates: Vec<Crate>,
    pub keywords: Vec<(u32, String)>,
    pub categories: Vec<(u32, String)>,
}

/// The contents of the three files that hold an index.
pub struct Artifacts {
    /// The ranked packages, each record behind its byte length.
    pub dump: Vec<u8>,
    /// The table of keyword names.
    pub keywords: Vec<u8>,
    /// The table of category names.
    pub categories: Vec<u8>,
}

impl Index {
    /// The contents of the three files that hold this index.
    pub fn encode(&self) -> (files: Artifacts)
        ensures
            files.dump@ == dump(crate_views(self.crates@)),
            files.keywords@ == table(entry_views(self.keywords@)),
            files.categories@ == table(entry_views(self.categories@)),
    {
        Artifacts {
            dump: encode_dump(&self.crates),
            keywords: encode_table(&self.keywords),
            categories: encode_table(&self.categories),
        }
    }
}

/// The record of the package of `row` in snapshot `s`.
pub open spec fn package_record(s: Snapshot, row: PackageRow) -> CrateView {
    CrateView {
        name: row.name@,
        repository: option_text(row.repository),
        homepage: option_text(row.homepage),
        documentation: option_text(row.documentation),
        description: row.description@,
        latest_stable_version: latest(s.versions@, row.id, true),
        latest_version: latest(s.versions@, row.id, false),
        categories: tags_of(s.crates_categories@, row.id),
        keywords: tags_of(s.crates_keywords@, row.id),
        num_versions: num_versions(s.default_versions@, row.id),
        order: popularity(s.dependencies@, most_recent_ids(s.versions@), row.id),
    }
}

/// The record of each package row of snapshot `s`.
pub open spec fn package_records(s: Snapshot) -> Seq<CrateView> {
    Seq::new(s.crates@.len(), |i: int| package_record(s, s.crates@[i]))
}

/// Builds the index of a snapshot. Fails, with nothing built, on the first
/// version whose number is no semantic version.
pub fn process(snapshot: &Snapshot) -> (r: Result<Index, IngestError>)
    ensures
        match r {
            Ok(index) => {
                &&& forall|i: int|
                    0 <= i < snapshot.versions@.len() ==> is_version(
                        (#[trigger] snapshot.versions@[i]).num@,
                    )
                &&& ranking_of(
                    index.ids@,
                    crate_views(index.crates@),
                    snapshot.crates@,
                    libs(snapshot.versions@),
                    package_records(*snapshot),
                )
                &&& is_name_table(index.keywords@, snapshot.keywords@)
                &&& is_name_table(index.categories@, snapshot.categories@)
            },
            Err(e) => exists|i: int| #[trigger]
                is_first_malformed(snapshot.versions@, i) && e == (IngestError::VersionParse {
                    version_id: snapshot.versions@[i].id,
                }),
        },
{
    let found = match latest_versions(&snapshot.versions) {
        Err(e) => {
            return Err(e);
        },
        Ok(found) => found,
    };
    let recent = most_recent_versions(&snapshot.versions);
    let agg = Aggregates {
        libs: library_packages(&snapshot.versions),
        votes: count_votes(&snapshot.dependencies, &recent.versions),
        stable: found.stable,
        prerelease: found.prerelease,
        num_versions: version_counts(&snapshot.default_versions),
        keywords: tag_lists(&snapshot.crates_keywords),
        categories: tag_lists(&snapshot.crates_categories),
    };
    let ranking = rank(&snapshot.crates, &agg);
    proof {
        assert forall|i: int| 0 <= i < snapshot.crates@.len() implies joined(
            snapshot.crates@[i],
            agg,
        ) == package_record(*snapshot, snapshot.crates@[i]) by {
            let row = snapshot.crates@[i];
            let want = package_record(*snapshot, row);
            assert(latest(snapshot.versions@, row.id, true) == want.latest_stable_version);
            assert(latest(snapshot.versions@, row.id, false) == want.latest_version);
            assert(tags_of(snapshot.crates_categories@, row.id) == want.categories);
            assert(tags_of(snapshot.crates_keywords@, row.id) == want.keywords);
            assert(num_versions(snapshot.default_versions@, row.id) == want.num_versions);
            assert(popularity(snapshot.dependencies@, recent.versions@, row.id) == want.order);
        }
        assert(joined_all(snapshot.crates@, agg) =~= package_records(*snapshot));
    }
    Ok(
        Index {
            ids: ranking.ids,
            crates: ranking.crates,
            keywords: name_table(&snapshot.keywords),
            categories: name_table(&snapshot.categories),
        },
    )
}

/// A package none of whose versions has a library target is not ranked,
/// whatever its popularity.
pub proof fn lemma_no_library_never_ranked(
    ids: Seq<u32>,
    crates: Seq<CrateView>,
    packages: Seq<PackageRow>,
    versions: Seq<VersionRow>,
    records: Seq<CrateView>,
    p: u32,
)
    requires
        ranking_of(ids, crates, packages, libs(versions), records),
        forall|i: int|
            0 <= i < versions.len() && (#[trigger] versions[i]).crate_id == p
                ==> !versions[i].has_lib,
    ensures
        forall|a: int| 0 <= a < ids.len() ==> ids[a] != p,
{
    lemma_no_library_version(versions, p);
    lemma_library_only(ids, crates, packages, libs(versions), records, p);
}

/// Only the most recent version of a package votes: an edge from a version
/// that is older than another version of its package, and whose identifier
/// no other row bears, changes no count.
pub proof fn lemma_only_most_recent_votes(
    versions: Seq<VersionRow>,
    deps: Seq<DependencyRow>,
    old: int,
    new: int,
    target: u32,
)
    requires
        0 <= old < versions.len(),
        0 <= new < versions.len(),
        versions[old].crate_id == versions[new].crate_id,
        later(versions[new], versions[old]),
        forall|i: int|
            0 <= i < versions.len() && (#[trigger] versions[i]).id == versions[old].id ==> i
                == old,
    ensures
        popularity(
            deps.push(DependencyRow { version_id: versions[old].id, crate_id: target }),
            most_recent_ids(versions),
            target,
        ) == popularity(deps, most_recent_ids(versions), target),
{
    lemma_older_version_is_not_recent(versions, old, new);
    lemma_stale_edge_counts_nothing(
        deps,
        most_recent_ids(versions),
        DependencyRow { version_id: versions[old].id, crate_id: target },
        target,
    );
}

} // verus!
