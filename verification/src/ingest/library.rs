//! Which packages have a library target.

use crate::rows::VersionRow;
use std::collections::BTreeSet;
use vstd::prelude::*;

verus! {

/// The packages with at least one version that has a library target.
pub open spec fn libs(versions: Seq<VersionRow>) -> Set<u32> {
    Set::new(
        |p: u32|
            exists|i: int|
                0 <= i < versions.len() && (#[trigger] versions[i]).crate_id == p
                    && versions[i].has_lib,
    )
}

/// Collects the packages with at least one version that has a library
/// target.
pub fn library_packages(versions: &Vec<VersionRow>) -> (found: BTreeSet<u32>)
    ensures
        found@ == libs(versions@),
{
    let mut found: BTreeSet<u32> = BTreeSet::new();
    let mut n: usize = 0;
    assert(found@ =~= libs(versions@.take(0)));
    while n < versions.len()
        invariant
            n <= versions.len(),
            found@ == libs(versions@.take(n as int)),
        decreases versions.len() - n,
    {
        let ghost before = versions@.take(n as int);
        let ghost after = versions@.take(n + 1);
        let ghost row = versions@[n as int];
        if versions[n].has_lib {
            found.insert(versions[n].crate_id);
        }
        proof {
            assert forall|p: u32| found@.contains(p) <==> libs(after).contains(p) by {
                if libs(after).contains(p) {
                    let i = choose|i: int|
                        0 <= i < after.len() && (#[trigger] after[i]).crate_id == p
                            && after[i].has_lib;
                    if i < n {
                        assert(before[i] == after[i]);
                    }
                }
                if libs(before).contains(p) {
                    let i = choose|i: int|
                        0 <= i < before.len() && (#[trigger] before[i]).crate_id == p
                            && before[i].has_lib;
                    assert(after[i] == before[i]);
                }
                if row.has_lib && p == row.crate_id {
                    assert(after[n as int] == row);
                }
            }
            assert(found@ =~= libs(after));
        }
        n = n + 1;
    }
    assert(versions@.take(n as int) =~= versions@);
    found
}

/// A package none of whose versions has a library target is no library
/// package.
pub proof fn lemma_no_library_version(versions: Seq<VersionRow>, p: u32)
    requires
        forall|i: int|
            0 <= i < versions.len() && (#[trigger] versions[i]).crate_id == p
                ==> !versions[i].has_lib,
    ensures
        !libs(versions).contains(p),
{
}

} // verus!
