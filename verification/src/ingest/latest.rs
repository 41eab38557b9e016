//! The greatest stable version and the greatest pre-release version of
//! each package.

use crate::rows::VersionRow;
use crate::version::{is_stable, is_version, parse_prerelease, semver_less, version_less};
use std::collections::BTreeMap;
use vstd::prelude::*;

verus! {

/// Why a snapshot could not be ingested.
#[derive(Debug, Clone, Copy, PartialEq, Eq, Structural)]
pub enum IngestError {
    /// The number of the version with this identifier is no semantic
    /// version.
    VersionParse { version_id: u32 },
}

/// The greatest version of package `p` among the stable versions in
/// `versions` (with `stable`) or among those with a pre-release tag
/// (without): each version in turn replaces the one held so far if, and
/// only if, it is strictly greater. Rows whose number is no version are
/// passed over.
pub open spec fn latest(versions: Seq<VersionRow>, p: u32, stable: bool) -> Option<Seq<char>>
    decreases versions.len(),
{
    if versions.len() == 0 {
        None
    } else {
        let held = latest(versions.drop_last(), p, stable);
        let row = versions.last();
        if row.crate_id == p && is_version(row.num@) && is_stable(row.num@) == stable && (
        held matches Some(h) ==> semver_less(h, row.num@)) {
            Some(row.num@)
        } else {
            held
        }
    }
}

/// Whether `held` holds, for every package, its greatest version of the
/// given kind; a package without an entry has no version of that kind.
pub open spec fn latest_match(
    held: Map<u32, String>,
    versions: Seq<VersionRow>,
    stable: bool,
) -> bool {
    forall|p: u32|
        if held.contains_key(p) {
            #[trigger] latest(versions, p, stable) == Some(held[p]@)
        } else {
            latest(versions, p, stable) is None
        }
}

/// Whether every text that `held` holds is a version.
pub open spec fn all_versions(held: Map<u32, String>) -> bool {
    forall|p: u32| #[trigger] held.contains_key(p) ==> is_version(held[p]@)
}

/// Whether row `i` is the first whose number is no semantic version.
pub open spec fn is_first_malformed(versions: Seq<VersionRow>, i: int) -> bool {
    &&& 0 <= i < versions.len()
    &&& !is_version(versions[i].num@)
    &&& forall|j: int| 0 <= j < i ==> is_version((#[trigger] versions[j]).num@)
}

/// The greatest stable version and the greatest pre-release version of
/// each package.
pub struct Latest {
    pub stable: BTreeMap<u32, String>,
    pub prerelease: BTreeMap<u32, String>,
}

/// Puts `text` in the place of the version held for `p`, if none is held or
/// the one held is less.
fn keep_greater(held: &mut BTreeMap<u32, String>, p: u32, text: &String)
    requires
        is_version(text@),
        all_versions(old(held)@),
    ensures
        all_versions(final(held)@),
        forall|q: u32| q != p ==> final(held)@.contains_key(q) == old(held)@.contains_key(q),
        forall|q: u32| q != p && old(held)@.contains_key(q) ==> final(held)@[q] == old(held)@[q],
        final(held)@.contains_key(p),
        final(held)@[p]@ == if old(held)@.contains_key(p) && !semver_less(
            old(held)@[p]@,
            text@,
        ) {
            old(held)@[p]@
        } else {
            text@
        },
{
    let replace: bool = match held.get(&p) {
        None => true,
        Some(cur) => version_less(cur.as_str(), text.as_str()),
    };
    if replace {
        held.insert(p, text.clone());
    }
}

/// Finds the greatest stable version and the greatest pre-release version
/// of each package. Fails on the first version whose number is no
/// semantic version.
pub fn latest_versions(versions: &Vec<VersionRow>) -> (r: Result<Latest, IngestError>)
    ensures
        match r {
            Ok(found) => {
                &&& forall|i: int| 0 <= i < versions@.len() ==> is_version(
                    (#[trigger] versions@[i]).num@,
                )
                &&& latest_match(found.stable@, versions@, true)
                &&& latest_match(found.prerelease@, versions@, false)
            },
            Err(e) => exists|i: int| #[trigger]
                is_first_malformed(versions@, i) && e == (IngestError::VersionParse {
                    version_id: versions@[i].id,
                }),
        },
{
    let mut stable: BTreeMap<u32, String> = BTreeMap::new();
    let mut prerelease: BTreeMap<u32, String> = BTreeMap::new();
    let mut n: usize = 0;
    while n < versions.len()
        invariant
            n <= versions.len(),
            forall|i: int| 0 <= i < n ==> is_version((#[trigger] versions@[i]).num@),
            all_versions(stable@),
            all_versions(prerelease@),
            latest_match(stable@, versions@.take(n as int), true),
            latest_match(prerelease@, versions@.take(n as int), false),
        decreases versions.len() - n,
    {
        let row = &versions[n];
        let ghost before = versions@.take(n as int);
        let ghost after = versions@.take(n + 1);
        proof {
            assert(after.drop_last() =~= before);
            assert(after.last() == versions@[n as int]);
        }
        let pre = match parse_prerelease(row.num.as_str()) {
            Err(_) => {
                assert(is_first_malformed(versions@, n as int));
                return Err(IngestError::VersionParse { version_id: row.id });
            },
            Ok(pre) => pre,
        };
        if pre.as_str().is_empty() {
            keep_greater(&mut stable, row.crate_id, &row.num);
            proof {
                assert forall|q: u32|
                    if stable@.contains_key(q) {
                        #[trigger] latest(after, q, true) == Some(stable@[q]@)
                    } else {
                        latest(after, q, true) is None
                    } by {
                    if q != row.crate_id {
                        assert(latest(before, q, true) == latest(after, q, true));
                    }
                }
                assert forall|q: u32|
                    if prerelease@.contains_key(q) {
                        #[trigger] latest(after, q, false) == Some(prerelease@[q]@)
                    } else {
                        latest(after, q, false) is None
                    } by {
                    assert(latest(before, q, false) == latest(after, q, false));
                }
            }
        } else {
            keep_greater(&mut prerelease, row.crate_id, &row.num);
            proof {
                assert forall|q: u32|
                    if prerelease@.contains_key(q) {
                        #[trigger] latest(after, q, false) == Some(prerelease@[q]@)
                    } else {
                        latest(after, q, false) is None
                    } by {
                    if q != row.crate_id {
                        assert(latest(before, q, false) == latest(after, q, false));
                    }
                }
                assert forall|q: u32|
                    if stable@.contains_key(q) {
                        #[trigger] latest(after, q, true) == Some(stable@[q]@)
                    } else {
                        latest(after, q, true) is None
                    } by {
                    assert(latest(before, q, true) == latest(after, q, true));
                }
            }
        }
        n = n + 1;
    }
    assert(versions@.take(n as int) =~= versions@);
    Ok(Latest { stable, prerelease })
}

} // verus!
