//! Reduces the dependency edges to one popularity count per package.

use crate::rows::DependencyRow;
use std::collections::{BTreeMap, BTreeSet};
use vstd::prelude::*;

verus! {

/// The versions that vote for package `target`: those in `recent` with at
/// least one edge to it. A version with several edges to the same target is
/// one voter.
pub open spec fn voters(deps: Seq<DependencyRow>, recent: Set<u32>, target: u32) -> Set<u32> {
    Set::new(
        |v: u32|
            recent.contains(v) && exists|i: int|
                0 <= i < deps.len() && (#[trigger] deps[i]).version_id == v && deps[i].crate_id
                    == target,
    )
}

/// The popularity count of package `target`: the number of its voters,
/// held at the greatest 32-bit number where it would exceed it.
pub open spec fn popularity(deps: Seq<DependencyRow>, recent: Set<u32>, target: u32) -> u32 {
    let n = voters(deps, recent, target).len();
    if n > u32::MAX {
        u32::MAX
    } else {
        n as u32
    }
}

/// Whether `counts` holds the popularity count of every package. A package
/// without an entry has no voter.
pub open spec fn votes_match(
    counts: Map<u32, u32>,
    deps: Seq<DependencyRow>,
    recent: Set<u32>,
) -> bool {
    forall|t: u32|
        if counts.contains_key(t) {
            counts[t] == #[trigger] popularity(deps, recent, t)
        } else {
            popularity(deps, recent, t) == 0
        }
}

/// What one more edge does to the voters of a package.
pub proof fn lemma_voters_step(deps: Seq<DependencyRow>, recent: Set<u32>, target: u32)
    requires
        deps.len() > 0,
    ensures
        voters(deps, recent, target) == if deps.last().crate_id == target && recent.contains(
            deps.last().version_id,
        ) {
            voters(deps.drop_last(), recent, target).insert(deps.last().version_id)
        } else {
            voters(deps.drop_last(), recent, target)
        },
{
    let before = deps.drop_last();
    let row = deps.last();
    let grown = if row.crate_id == target && recent.contains(row.version_id) {
        voters(before, recent, target).insert(row.version_id)
    } else {
        voters(before, recent, target)
    };
    assert forall|v: u32| voters(deps, recent, target).contains(v) <==> grown.contains(v) by {
        if voters(deps, recent, target).contains(v) {
            let i = choose|i: int|
                0 <= i < deps.len() && (#[trigger] deps[i]).version_id == v && deps[i].crate_id
                    == target;
            if i < deps.len() - 1 {
                assert(before[i] == deps[i]);
            }
        }
        if voters(before, recent, target).contains(v) {
            let i = choose|i: int|
                0 <= i < before.len() && (#[trigger] before[i]).version_id == v
                    && before[i].crate_id == target;
            assert(deps[i] == before[i]);
        }
        if row.crate_id == target && recent.contains(row.version_id) && v == row.version_id {
            assert(deps[deps.len() - 1] == row);
        }
    }
    assert(voters(deps, recent, target) =~= grown);
}

/// A package has finitely many voters.
pub proof fn lemma_voters_finite(deps: Seq<DependencyRow>, recent: Set<u32>, target: u32)
    ensures
        voters(deps, recent, target).finite(),
    decreases deps.len(),
{
    if deps.len() == 0 {
        assert(voters(deps, recent, target) =~= Set::<u32>::empty());
    } else {
        lemma_voters_finite(deps.drop_last(), recent, target);
        lemma_voters_step(deps, recent, target);
    }
}

/// An edge that repeats an earlier one changes no count: a version that
/// declares the same target more than once votes once.
pub proof fn lemma_repeated_edge_counts_once(
    deps: Seq<DependencyRow>,
    recent: Set<u32>,
    i: int,
    target: u32,
)
    requires
        0 <= i < deps.len(),
    ensures
        popularity(deps.push(deps[i]), recent, target) == popularity(deps, recent, target),
{
    let more = deps.push(deps[i]);
    assert(more.drop_last() =~= deps);
    lemma_voters_step(more, recent, target);
    if deps[i].crate_id == target && recent.contains(deps[i].version_id) {
        assert(voters(deps, recent, target).contains(deps[i].version_id));
        assert(voters(deps, recent, target).insert(deps[i].version_id) =~= voters(
            deps,
            recent,
            target,
        ));
    }
}

/// An edge from a version outside `recent` changes no count.
pub proof fn lemma_stale_edge_counts_nothing(
    deps: Seq<DependencyRow>,
    recent: Set<u32>,
    edge: DependencyRow,
    target: u32,
)
    requires
        !recent.contains(edge.version_id),
    ensures
        popularity(deps.push(edge), recent, target) == popularity(deps, recent, target),
{
    let more = deps.push(edge);
    assert(more.drop_last() =~= deps);
    lemma_voters_step(more, recent, target);
}

/// Counts, for each package, the versions in `recent` that depend on it.
/// Each pair of a version and a target counts once, however many edges
/// join them, and edges from versions outside `recent` count nothing.
pub fn count_votes(deps: &Vec<DependencyRow>, recent: &BTreeSet<u32>) -> (counts: BTreeMap<
    u32,
    u32,
>)
    ensures
        votes_match(counts@, deps@, recent@),
{
    let mut seen: BTreeSet<(u32, u32)> = BTreeSet::new();
    let mut counts: BTreeMap<u32, u32> = BTreeMap::new();
    let mut n: usize = 0;
    proof {
        assert forall|t: u32| voters(deps@.take(0), recent@, t) =~= Set::<u32>::empty() by {
            assert(deps@.take(0).len() == 0);
        }
    }
    while n < deps.len()
        invariant
            n <= deps.len(),
            forall|v: u32, t: u32| #[trigger]
                seen@.contains((v, t)) <==> voters(deps@.take(n as int), recent@, t).contains(v),
            votes_match(counts@, deps@.take(n as int), recent@),
        decreases deps.len() - n,
    {
        let v: u32 = deps[n].version_id;
        let t: u32 = deps[n].crate_id;
        let ghost before = deps@.take(n as int);
        let ghost after = deps@.take(n + 1);
        let ghost old_seen = seen@;
        let ghost old_counts = counts@;
        proof {
            assert(after.drop_last() =~= before);
            assert(after.last() == deps@[n as int]);
            assert forall|u: u32|
                voters(after, recent@, u) == if u == t && recent@.contains(v) {
                    voters(before, recent@, u).insert(v)
                } else {
                    voters(before, recent@, u)
                } by {
                lemma_voters_step(after, recent@, u);
            }
            lemma_voters_finite(before, recent@, t);
        }
        if recent.contains(&v) && seen.insert((v, t)) {
            let held: u32 = match counts.get(&t) {
                Some(c) => *c,
                None => 0,
            };
            let grown: u32 = if held < u32::MAX {
                held + 1
            } else {
                held
            };
            counts.insert(t, grown);
            proof {
                assert(!voters(before, recent@, t).contains(v));
                assert(voters(after, recent@, t).len() == voters(before, recent@, t).len() + 1);
                assert(old_counts.contains_key(t) ==> held == popularity(before, recent@, t));
                assert(!old_counts.contains_key(t) ==> popularity(before, recent@, t) == 0);
            }
        } else {
            proof {
                assert(voters(after, recent@, t) =~= voters(before, recent@, t));
            }
        }
        proof {
            assert forall|t2: u32|
                if counts@.contains_key(t2) {
                    counts@[t2] == #[trigger] popularity(after, recent@, t2)
                } else {
                    popularity(after, recent@, t2) == 0
                } by {
                if t2 != t {
                    assert(counts@.contains_key(t2) == old_counts.contains_key(t2));
                    assert(popularity(before, recent@, t2) == popularity(after, recent@, t2));
                }
            }
            assert forall|v2: u32, t2: u32| #[trigger]
                seen@.contains((v2, t2)) <==> voters(after, recent@, t2).contains(v2) by {
                assert(old_seen.contains((v2, t2)) <==> voters(before, recent@, t2).contains(v2));
            }
        }
        n = n + 1;
    }
    assert(deps@.take(n as int) =~= deps@);
    counts
}

} // verus!
