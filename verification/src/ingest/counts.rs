//! The number of versions that the source reports for each package.

use crate::rows::VersionCountRow;
use std::collections::BTreeMap;
use vstd::prelude::*;

verus! {

/// The number of versions that the source reports for package `p`: what
/// the last of its rows says, and 0 where it has no row or the row says
/// nothing.
pub open spec fn num_versions(rows: Seq<VersionCountRow>, p: u32) -> u32
    decreases rows.len(),
{
    if rows.len() == 0 {
        0
    } else if rows.last().crate_id == p {
        match rows.last().num_versions {
            Some(n) => n,
            None => 0,
        }
    } else {
        num_versions(rows.drop_last(), p)
    }
}

/// Whether `counts` holds, for every package, the number of versions that
/// `rows` report for it. A package without an entry has none reported.
pub open spec fn counts_match(counts: Map<u32, u32>, rows: Seq<VersionCountRow>) -> bool {
    forall|p: u32|
        if counts.contains_key(p) {
            counts[p] == #[trigger] num_versions(rows, p)
        } else {
            num_versions(rows, p) == 0
        }
}

/// Collects the reported number of versions of each package.
pub fn version_counts(rows: &Vec<VersionCountRow>) -> (counts: BTreeMap<u32, u32>)
    ensures
        counts_match(counts@, rows@),
{
    let mut counts: BTreeMap<u32, u32> = BTreeMap::new();
    let mut n: usize = 0;
    while n < rows.len()
        invariant
            n <= rows.len(),
            counts_match(counts@, rows@.take(n as int)),
        decreases rows.len() - n,
    {
        let value: u32 = match rows[n].num_versions {
            Some(v) => v,
            None => 0,
        };
        let ghost old_counts = counts@;
        counts.insert(rows[n].crate_id, value);
        proof {
            let before = rows@.take(n as int);
            let after = rows@.take(n + 1);
            assert(after.drop_last() =~= before);
            assert(after.last() == rows@[n as int]);
            assert forall|q: u32|
                if counts@.contains_key(q) {
                    counts@[q] == #[trigger] num_versions(after, q)
                } else {
                    num_versions(after, q) == 0
                } by {
                if q != rows@[n as int].crate_id {
                    assert(counts@.contains_key(q) == old_counts.contains_key(q));
                    assert(num_versions(before, q) == num_versions(after, q));
                }
            }
        }
        n = n + 1;
    }
    assert(rows@.take(n as int) =~= rows@);
    counts
}

} // verus!
