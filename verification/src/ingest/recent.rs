//! The most recent version of each package: the one whose dependencies
//! count as the package's own.

use crate::rows::VersionRow;
use std::collections::{BTreeMap, BTreeSet};
use vstd::prelude::*;

verus! {

/// Whether version `a` was published later than version `b`.
pub open spec fn later(a: VersionRow, b: VersionRow) -> bool {
    a.created_secs > b.created_secs || (a.created_secs == b.created_secs && a.created_nanos
        > b.created_nanos)
}

/// Whether row `i` is the most recent version of its package: no version
/// of the package was published later, and every version of the package
/// that stands before it was published earlier.
pub open spec fn is_most_recent(versions: Seq<VersionRow>, i: int) -> bool {
    &&& 0 <= i < versions.len()
    &&& forall|j: int|
        0 <= j < versions.len() && (#[trigger] versions[j]).crate_id == versions[i].crate_id
            ==> !later(versions[j], versions[i]) && (j < i ==> later(versions[i], versions[j]))
}

/// The identifiers of the versions that are the most recent of their
/// package.
pub open spec fn most_recent_ids(versions: Seq<VersionRow>) -> Set<u32> {
    Set::new(|v: u32| exists|i: int| #[trigger] is_most_recent(versions, i) && versions[i].id == v)
}

/// A package has one most recent version.
pub proof fn lemma_most_recent_unique(versions: Seq<VersionRow>, i: int, j: int)
    requires
        is_most_recent(versions, i),
        is_most_recent(versions, j),
        versions[i].crate_id == versions[j].crate_id,
    ensures
        i == j,
{
    if i < j {
        assert(later(versions[j], versions[i]));
    } else if j < i {
        assert(later(versions[i], versions[j]));
    }
}

/// A version that is older than another version of its package is not the
/// most recent one.
pub proof fn lemma_older_is_not_most_recent(versions: Seq<VersionRow>, old: int, new: int)
    requires
        0 <= old < versions.len(),
        0 <= new < versions.len(),
        versions[old].crate_id == versions[new].crate_id,
        later(versions[new], versions[old]),
    ensures
        !is_most_recent(versions, old),
{
}

/// A version that is older than another version of its package, and whose
/// identifier no other row bears, is not among the most recent versions.
pub proof fn lemma_older_version_is_not_recent(versions: Seq<VersionRow>, old: int, new: int)
    requires
        0 <= old < versions.len(),
        0 <= new < versions.len(),
        versions[old].crate_id == versions[new].crate_id,
        later(versions[new], versions[old]),
        forall|i: int|
            0 <= i < versions.len() && (#[trigger] versions[i]).id == versions[old].id ==> i
                == old,
    ensures
        !most_recent_ids(versions).contains(versions[old].id),
{
    lemma_older_is_not_most_recent(versions, old, new);
    if most_recent_ids(versions).contains(versions[old].id) {
        let i = choose|i: int| #[trigger]
            is_most_recent(versions, i) && versions[i].id == versions[old].id;
        assert(i == old);
    }
}

/// Whether `v` is the identifier of the most recent version of package
/// `p`.
pub open spec fn has_most_recent(versions: Seq<VersionRow>, p: u32, v: u32) -> bool {
    exists|i: int| #[trigger]
        is_most_recent(versions, i) && versions[i].crate_id == p && versions[i].id == v
}

/// Whether `held` holds, for every package with a version, the identifier
/// of its most recent version, and nothing else.
pub open spec fn most_recent_match(held: Map<u32, u32>, versions: Seq<VersionRow>) -> bool {
    &&& forall|j: int|
        0 <= j < versions.len() ==> held.contains_key((#[trigger] versions[j]).crate_id)
    &&& forall|p: u32| #[trigger] held.contains_key(p) ==> has_most_recent(versions, p, held[p])
}

/// The most recent version of each package.
pub struct MostRecent {
    /// For each package with a version, the identifier of its most recent
    /// version.
    pub by_package: BTreeMap<u32, u32>,
    /// The identifiers of the versions that are the most recent of their
    /// package.
    pub versions: BTreeSet<u32>,
}

/// Finds, for each package, the row of its most recent version.
fn most_recent_rows(versions: &Vec<VersionRow>) -> (newest: BTreeMap<u32, usize>)
    ensures
        forall|p: u32| #[trigger]
            newest@.contains_key(p) ==> is_most_recent(versions@, newest@[p] as int)
                && versions@[newest@[p] as int].crate_id == p,
        forall|j: int|
            0 <= j < versions@.len() ==> newest@.contains_key((#[trigger] versions@[j]).crate_id),
{
    let mut newest: BTreeMap<u32, usize> = BTreeMap::new();
    let mut n: usize = 0;
    while n < versions.len()
        invariant
            n <= versions.len(),
            forall|p: u32| #[trigger]
                newest@.contains_key(p) ==> is_most_recent(
                    versions@.take(n as int),
                    newest@[p] as int,
                ) && versions@[newest@[p] as int].crate_id == p,
            forall|j: int|
                0 <= j < n ==> newest@.contains_key((#[trigger] versions@[j]).crate_id),
        decreases versions.len() - n,
    {
        let p: u32 = versions[n].crate_id;
        let ghost before = versions@.take(n as int);
        let ghost after = versions@.take(n + 1);
        let ghost old_newest = newest@;
        let replace: bool = match newest.get(&p) {
            None => true,
            Some(at) => {
                let cur = &versions[*at];
                versions[n].created_secs > cur.created_secs || (versions[n].created_secs
                    == cur.created_secs && versions[n].created_nanos > cur.created_nanos)
            },
        };
        if replace {
            newest.insert(p, n);
        }
        proof {
            assert forall|q: u32| #[trigger] newest@.contains_key(q) implies is_most_recent(
                after,
                newest@[q] as int,
            ) && versions@[newest@[q] as int].crate_id == q by {
                let i = newest@[q] as int;
                assert(i <= n);
                assert forall|j: int|
                    0 <= j < after.len() && (#[trigger] after[j]).crate_id == after[i].crate_id
                    implies !later(after[j], after[i]) && (j < i ==> later(after[i], after[j])) by {
                    if j < n {
                        assert(before[j] == after[j]);
                        assert(before[j] == versions@[j]);
                    }
                    if q == p {
                        if old_newest.contains_key(p) {
                            let k = old_newest[p] as int;
                            assert(is_most_recent(before, k));
                            assert(before[k] == versions@[k]);
                            if j < n {
                                assert(!later(before[j], before[k]));
                            }
                        } else {
                            if j < n {
                                assert(old_newest.contains_key(versions@[j].crate_id));
                            }
                        }
                    } else {
                        assert(old_newest.contains_key(q));
                        assert(is_most_recent(before, i));
                        assert(before[i] == versions@[i]);
                    }
                }
            }
        }
        n = n + 1;
    }
    assert(versions@.take(n as int) =~= versions@);
    newest
}

/// Finds the most recent version of each package: the one that was
/// published last, and of several published at the same time the one that
/// stands first.
pub fn most_recent_versions(versions: &Vec<VersionRow>) -> (recent: MostRecent)
    ensures
        most_recent_match(recent.by_package@, versions@),
        recent.versions@ == most_recent_ids(versions@),
{
    let newest = most_recent_rows(versions);
    let mut by_package: BTreeMap<u32, u32> = BTreeMap::new();
    let mut recent: BTreeSet<u32> = BTreeSet::new();
    let mut n: usize = 0;
    while n < versions.len()
        invariant
            n <= versions.len(),
            forall|p: u32| #[trigger]
                newest@.contains_key(p) ==> is_most_recent(versions@, newest@[p] as int)
                    && versions@[newest@[p] as int].crate_id == p,
            forall|j: int|
                0 <= j < versions@.len() ==> newest@.contains_key(
                    (#[trigger] versions@[j]).crate_id,
                ),
            forall|v: u32|
                recent@.contains(v) <==> exists|i: int|
                    0 <= i < n && #[trigger] is_most_recent(versions@, i) && versions@[i].id == v,
            forall|p: u32| #[trigger]
                by_package@.contains_key(p) ==> has_most_recent(versions@, p, by_package@[p]),
            forall|i: int|
                0 <= i < n && #[trigger] is_most_recent(versions@, i) ==> by_package@.contains_key(
                    versions@[i].crate_id,
                ),
        decreases versions.len() - n,
    {
        let ghost old_recent = recent@;
        let ghost old_by_package = by_package@;
        let p: u32 = versions[n].crate_id;
        let here: bool = match newest.get(&p) {
            None => false,
            Some(at) => *at == n,
        };
        proof {
            assert(newest@.contains_key(versions@[n as int].crate_id));
            if !here {
                if is_most_recent(versions@, n as int) {
                    lemma_most_recent_unique(versions@, n as int, newest@[p] as int);
                }
            }
        }
        if here {
            recent.insert(versions[n].id);
            by_package.insert(p, versions[n].id);
        }
        proof {
            assert forall|v: u32|
                recent@.contains(v) <==> exists|i: int|
                    0 <= i < n + 1 && #[trigger] is_most_recent(versions@, i) && versions@[i].id
                        == v by {
                if exists|i: int|
                    0 <= i < n + 1 && #[trigger] is_most_recent(versions@, i) && versions@[i].id
                        == v {
                    let i = choose|i: int|
                        0 <= i < n + 1 && #[trigger] is_most_recent(versions@, i)
                            && versions@[i].id == v;
                    if i < n {
                        assert(old_recent.contains(v));
                    }
                }
                if old_recent.contains(v) {
                    let i = choose|i: int|
                        0 <= i < n && #[trigger] is_most_recent(versions@, i) && versions@[i].id
                            == v;
                    assert(0 <= i < n + 1 && is_most_recent(versions@, i));
                }
                if here && v == versions@[n as int].id {
                    assert(is_most_recent(versions@, n as int));
                }
            }
            assert forall|q: u32| #[trigger] by_package@.contains_key(q) implies has_most_recent(
                versions@,
                q,
                by_package@[q],
            ) by {
                if here && q == p {
                    assert(is_most_recent(versions@, n as int));
                } else {
                    assert(old_by_package.contains_key(q));
                }
            }
        }
        n = n + 1;
    }
    proof {
        assert(recent@ =~= most_recent_ids(versions@));
        assert forall|j: int| 0 <= j < versions@.len() implies by_package@.contains_key(
            (#[trigger] versions@[j]).crate_id,
        ) by {
            let i = newest@[versions@[j].crate_id] as int;
            assert(newest@.contains_key(versions@[j].crate_id));
            assert(is_most_recent(versions@, i));
        }
    }
    MostRecent { by_package, versions: recent }
}

} // verus!
