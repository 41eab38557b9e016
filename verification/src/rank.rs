//! Joins the aggregates of each library package into one record and puts
//! the records in ranking order.

use crate::package::{Crate, CrateView};
use crate::rows::PackageRow;
use crate::sort::{
    in_range, lemma_ranks_before_total, ranks_before, sort_keys, stands_before, RankKey,
    RankKeyView,
};
use crate::wire::option_text;
use std::collections::{BTreeMap, BTreeSet};
use vstd::prelude::*;
use vstd::utf8::*;

verus! {

/// What was gathered of the packages of one snapshot, each part keyed by
/// the package's identifier.
pub struct Aggregates {
    /// The packages with a library target.
    pub libs: BTreeSet<u32>,
    /// The popularity counts; a package without an entry has count 0.
    pub votes: BTreeMap<u32, u32>,
    /// The greatest stable version of each package that has one.
    pub stable: BTreeMap<u32, String>,
    /// The greatest pre-release version of each package that has one.
    pub prerelease: BTreeMap<u32, String>,
    /// The reported numbers of versions; without an entry the number is 0.
    pub num_versions: BTreeMap<u32, u32>,
    /// The keywords of each package that has any.
    pub keywords: BTreeMap<u32, Vec<u32>>,
    /// The categories of each package that has any.
    pub categories: BTreeMap<u32, Vec<u32>>,
}

/// The ranked packages: `crates[a]` is the record of package `ids[a]`.
pub struct Ranking {
    pub ids: Vec<u32>,
    pub crates: Vec<Crate>,
}

/// The number that `m` holds for `p`, and 0 where it holds none.
pub open spec fn count_at(m: Map<u32, u32>, p: u32) -> u32 {
    if m.contains_key(p) {
        m[p]
    } else {
        0
    }
}

/// The text that `m` holds for `p`, if any.
pub open spec fn text_at(m: Map<u32, String>, p: u32) -> Option<Seq<char>> {
    if m.contains_key(p) {
        Some(m[p]@)
    } else {
        None
    }
}

/// The list that `m` holds for `p`, and the empty list where it holds none.
pub open spec fn list_at(m: Map<u32, Vec<u32>>, p: u32) -> Seq<u32> {
    if m.contains_key(p) {
        m[p]@
    } else {
        Seq::empty()
    }
}

/// The record of the package of `row`, made of the row and of what `agg`
/// holds for the package.
pub open spec fn joined(row: PackageRow, agg: Aggregates) -> CrateView {
    CrateView {
        name: row.name@,
        repository: option_text(row.repository),
        homepage: option_text(row.homepage),
        documentation: option_text(row.documentation),
        description: row.description@,
        latest_stable_version: text_at(agg.stable@, row.id),
        latest_version: text_at(agg.prerelease@, row.id),
        categories: list_at(agg.categories@, row.id),
        keywords: list_at(agg.keywords@, row.id),
        num_versions: count_at(agg.num_versions@, row.id),
        order: count_at(agg.votes@, row.id),
    }
}

/// The record of each row of `packages`.
pub open spec fn joined_all(packages: Seq<PackageRow>, agg: Aggregates) -> Seq<CrateView> {
    Seq::new(packages.len(), |i: int| joined(packages[i], agg))
}

/// Whether row `i` is the first of its package. Later rows of the same
/// package are passed over.
pub open spec fn is_first_row(packages: Seq<PackageRow>, i: int) -> bool {
    &&& 0 <= i < packages.len()
    &&& forall|j: int| 0 <= j < i ==> (#[trigger] packages[j]).id != packages[i].id
}

/// Whether row `i` is the row that package `id` is ranked by: the first
/// row of the package, which is a library package.
pub open spec fn is_source(packages: Seq<PackageRow>, libs: Set<u32>, i: int, id: u32) -> bool {
    &&& is_first_row(packages, i)
    &&& packages[i].id == id
    &&& libs.contains(id)
}

/// Whether `c` is the record of the row that package `id` is ranked by.
pub open spec fn has_source(
    packages: Seq<PackageRow>,
    libs: Set<u32>,
    records: Seq<CrateView>,
    id: u32,
    c: CrateView,
) -> bool {
    exists|i: int| #[trigger] is_source(packages, libs, i, id) && c == records[i]
}

/// The key by which a record is ranked.
pub open spec fn key_of(c: CrateView, id: u32) -> RankKeyView {
    RankKeyView { order: c.order, name: encode_utf8(c.name), id }
}

/// Whether `ids` and `crates` are the ranking of `packages`, where
/// `records[i]` is the record of the package of row `i`:
/// every entry is the record of a library package;
/// every library package among the rows has an entry;
/// each entry is ranked before all that follow it, so that no package
/// occurs twice and counts never rise along the ranking.
pub open spec fn ranking_of(
    ids: Seq<u32>,
    crates: Seq<CrateView>,
    packages: Seq<PackageRow>,
    libs: Set<u32>,
    records: Seq<CrateView>,
) -> bool {
    &&& ids.len() == crates.len()
    &&& records.len() == packages.len()
    &&& forall|a: int|
        0 <= a < ids.len() ==> has_source(packages, libs, records, #[trigger] ids[a], crates[a])
    &&& forall|i: int|
        0 <= i < packages.len() && libs.contains((#[trigger] packages[i]).id) ==> exists|a: int|
            0 <= a < ids.len() && #[trigger] ids[a] == packages[i].id
    &&& forall|a: int, b: int|
        0 <= a < b < ids.len() ==> ranks_before(
            key_of(#[trigger] crates[a], ids[a]),
            key_of(#[trigger] crates[b], ids[b]),
        )
}

/// Only library packages are ranked: a package outside `libs` has no
/// entry, whatever its popularity.
pub proof fn lemma_library_only(
    ids: Seq<u32>,
    crates: Seq<CrateView>,
    packages: Seq<PackageRow>,
    libs: Set<u32>,
    records: Seq<CrateView>,
    p: u32,
)
    requires
        ranking_of(ids, crates, packages, libs, records),
        !libs.contains(p),
    ensures
        forall|a: int| 0 <= a < ids.len() ==> ids[a] != p,
{
    assert forall|a: int| 0 <= a < ids.len() implies ids[a] != p by {
        assert(has_source(packages, libs, records, ids[a], crates[a]));
    }
}

/// Along a ranking the popularity count never rises.
pub proof fn lemma_order_never_rises(
    ids: Seq<u32>,
    crates: Seq<CrateView>,
    packages: Seq<PackageRow>,
    libs: Set<u32>,
    records: Seq<CrateView>,
)
    requires
        ranking_of(ids, crates, packages, libs, records),
    ensures
        forall|a: int, b: int| 0 <= a <= b < crates.len() ==> crates[a].order >= crates[b].order,
{
    assert forall|a: int, b: int| 0 <= a <= b < crates.len() implies crates[a].order
        >= crates[b].order by {
        if a < b {
            assert(ranks_before(key_of(crates[a], ids[a]), key_of(crates[b], ids[b])));
        }
    }
}

/// No package occurs twice in a ranking.
pub proof fn lemma_ranked_once(
    ids: Seq<u32>,
    crates: Seq<CrateView>,
    packages: Seq<PackageRow>,
    libs: Set<u32>,
    records: Seq<CrateView>,
)
    requires
        ranking_of(ids, crates, packages, libs, records),
    ensures
        forall|a: int, b: int| 0 <= a < b < ids.len() ==> ids[a] != ids[b],
{
    assert forall|a: int, b: int| 0 <= a < b < ids.len() implies ids[a] != ids[b] by {
        assert(has_source(packages, libs, records, ids[a], crates[a]));
        assert(has_source(packages, libs, records, ids[b], crates[b]));
        let i = choose|i: int| #[trigger]
            is_source(packages, libs, i, ids[a]) && crates[a] == records[i];
        let j = choose|j: int| #[trigger]
            is_source(packages, libs, j, ids[b]) && crates[b] == records[j];
        assert(ranks_before(key_of(crates[a], ids[a]), key_of(crates[b], ids[b])));
        if ids[a] == ids[b] {
            if i < j {
                assert(packages[i].id != packages[j].id);
            } else if j < i {
                assert(packages[j].id != packages[i].id);
            }
            crate::sort::lemma_ranks_before_asymmetric(
                key_of(crates[a], ids[a]),
                key_of(crates[b], ids[b]),
            );
        }
    }
}

/// A copy of an optional text.
fn copy_text(text: &Option<String>) -> (copy: Option<String>)
    ensures
        option_text(copy) == option_text(*text),
{
    match text {
        Some(t) => Some(t.clone()),
        None => None,
    }
}

/// Makes the record of the package of `row`.
fn join_row(row: &PackageRow, agg: &Aggregates) -> (c: Crate)
    ensures
        c@ == joined(*row, *agg),
{
    let order: u32 = match agg.votes.get(&row.id) {
        Some(n) => *n,
        None => 0,
    };
    let num_versions: u32 = match agg.num_versions.get(&row.id) {
        Some(n) => *n,
        None => 0,
    };
    let latest_stable_version: Option<String> = match agg.stable.get(&row.id) {
        Some(t) => Some(t.clone()),
        None => None,
    };
    let latest_version: Option<String> = match agg.prerelease.get(&row.id) {
        Some(t) => Some(t.clone()),
        None => None,
    };
    let keywords: Vec<u32> = match agg.keywords.get(&row.id) {
        Some(list) => list.clone(),
        None => Vec::new(),
    };
    let categories: Vec<u32> = match agg.categories.get(&row.id) {
        Some(list) => list.clone(),
        None => Vec::new(),
    };
    let c = Crate {
        name: row.name.clone(),
        repository: copy_text(&row.repository),
        homepage: copy_text(&row.homepage),
        documentation: copy_text(&row.documentation),
        description: row.description.clone(),
        latest_stable_version,
        latest_version,
        categories,
        keywords,
        num_versions,
        order,
    };
    assert(c@.keywords =~= joined(*row, *agg).keywords);
    assert(c@.categories =~= joined(*row, *agg).categories);
    c
}

/// Picks the rows by which packages are ranked: of each library package
/// the first row, in the order of the rows.
fn select(packages: &Vec<PackageRow>, libs: &BTreeSet<u32>) -> (picked: Vec<usize>)
    ensures
        forall|k: int|
            0 <= k < picked@.len() ==> is_source(
                packages@,
                libs@,
                #[trigger] picked@[k] as int,
                packages@[picked@[k] as int].id,
            ),
        forall|k: int, l: int| 0 <= k < l < picked@.len() ==> picked@[k] < picked@[l],
        forall|j: int|
            0 <= j < packages@.len() && libs@.contains((#[trigger] packages@[j]).id)
                ==> exists|k: int|
                0 <= k < picked@.len() && packages@[#[trigger] picked@[k] as int].id
                    == packages@[j].id,
{
    let mut seen: BTreeSet<u32> = BTreeSet::new();
    let mut picked: Vec<usize> = Vec::new();
    let mut n: usize = 0;
    while n < packages.len()
        invariant
            n <= packages.len(),
            forall|id: u32|
                seen@.contains(id) <==> exists|j: int|
                    0 <= j < n && (#[trigger] packages@[j]).id == id,
            forall|k: int| 0 <= k < picked@.len() ==> #[trigger] picked@[k] < n,
            forall|k: int|
                0 <= k < picked@.len() ==> is_source(
                    packages@,
                    libs@,
                    #[trigger] picked@[k] as int,
                    packages@[picked@[k] as int].id,
                ),
            forall|k: int, l: int| 0 <= k < l < picked@.len() ==> picked@[k] < picked@[l],
            forall|j: int|
                0 <= j < n && libs@.contains((#[trigger] packages@[j]).id) ==> exists|k: int|
                    0 <= k < picked@.len() && packages@[#[trigger] picked@[k] as int].id
                        == packages@[j].id,
        decreases packages.len() - n,
    {
        let id: u32 = packages[n].id;
        let ghost old_seen = seen@;
        let ghost old_picked = picked@;
        let fresh: bool = seen.insert(id);
        let lib: bool = libs.contains(&id);
        if fresh && lib {
            picked.push(n);
            proof {
                assert(is_first_row(packages@, n as int)) by {
                    assert forall|j: int| 0 <= j < n implies (#[trigger] packages@[j]).id
                        != packages@[n as int].id by {
                        if packages@[j].id == id {
                            assert(old_seen.contains(id));
                        }
                    }
                }
                assert forall|k: int| 0 <= k < picked@.len() implies is_source(
                    packages@,
                    libs@,
                    #[trigger] picked@[k] as int,
                    packages@[picked@[k] as int].id,
                ) by {
                    if k < old_picked.len() {
                        assert(picked@[k] == old_picked[k]);
                    }
                }
                assert forall|k: int, l: int| 0 <= k < l < picked@.len() implies picked@[k]
                    < picked@[l] by {
                    assert(picked@[k] == old_picked[k]);
                    if l < old_picked.len() {
                        assert(picked@[l] == old_picked[l]);
                    }
                }
            }
        }
        proof {
            assert forall|id2: u32|
                seen@.contains(id2) <==> exists|j: int|
                    0 <= j < n + 1 && (#[trigger] packages@[j]).id == id2 by {
                if exists|j: int| 0 <= j < n + 1 && (#[trigger] packages@[j]).id == id2 {
                    let j = choose|j: int| 0 <= j < n + 1 && (#[trigger] packages@[j]).id == id2;
                    if j < n {
                        assert(old_seen.contains(id2));
                    }
                }
                if old_seen.contains(id2) {
                    let j = choose|j: int| 0 <= j < n && (#[trigger] packages@[j]).id == id2;
                    assert(0 <= j < n + 1 && packages@[j].id == id2);
                }
                if id2 == id {
                    assert(packages@[n as int].id == id2);
                }
            }
            assert forall|j: int|
                0 <= j < n + 1 && libs@.contains((#[trigger] packages@[j]).id) implies exists|
                k: int,
            |
                0 <= k < picked@.len() && packages@[#[trigger] picked@[k] as int].id
                    == packages@[j].id by {
                let wanted = packages@[j].id;
                if j == n && fresh {
                    let k = picked@.len() - 1;
                    assert(packages@[picked@[k] as int].id == wanted);
                } else {
                    let j0 = if j < n {
                        j
                    } else {
                        choose|j0: int| 0 <= j0 < n && (#[trigger] packages@[j0]).id == id
                    };
                    assert(0 <= j0 < n && packages@[j0].id == wanted);
                    let k = choose|k: int|
                        0 <= k < old_picked.len() && packages@[#[trigger] old_picked[k] as int].id
                            == packages@[j0].id;
                    assert(picked@[k] == old_picked[k]);
                    assert(packages@[picked@[k] as int].id == wanted);
                }
            }
        }
        n = n + 1;
    }
    picked
}

/// Ranks the library packages among `packages`: each is joined with what
/// `agg` holds for it, and the records are put in ranking order.
pub fn rank(packages: &Vec<PackageRow>, agg: &Aggregates) -> (ranking: Ranking)
    ensures
        ranking_of(
            ranking.ids@,
            crate::container::crate_views(ranking.crates@),
            packages@,
            agg.libs@,
            joined_all(packages@, *agg),
        ),
{
    let picked = select(packages, &agg.libs);
    let mut keys: Vec<RankKey> = Vec::new();
    let mut k: usize = 0;
    while k < picked.len()
        invariant
            k <= picked.len(),
            keys@.len() == k,
            forall|l: int| 0 <= l < picked@.len() ==> #[trigger] picked@[l] < packages@.len(),
            forall|l: int|
                0 <= l < k ==> (#[trigger] keys@[l])@ == key_of(
                    joined(packages@[picked@[l] as int], *agg),
                    packages@[picked@[l] as int].id,
                ),
        decreases picked.len() - k,
    {
        let row = &packages[picked[k]];
        let order: u32 = match agg.votes.get(&row.id) {
            Some(n) => *n,
            None => 0,
        };
        keys.push(RankKey { order, name: row.name.clone(), id: row.id });
        k = k + 1;
    }
    let perm = sort_keys(&keys);
    let mut ids: Vec<u32> = Vec::new();
    let mut crates: Vec<Crate> = Vec::new();
    let mut a: usize = 0;
    while a < perm.len()
        invariant
            a <= perm.len(),
            ids@.len() == a,
            crates@.len() == a,
            perm@.len() == picked@.len(),
            in_range(perm@, picked@.len() as nat),
            forall|l: int| 0 <= l < picked@.len() ==> #[trigger] picked@[l] < packages@.len(),
            forall|b: int|
                0 <= b < a ==> (#[trigger] ids@[b]) == packages@[picked@[perm@[b] as int] as int].id,
            forall|b: int|
                0 <= b < a ==> (#[trigger] crates@[b])@ == joined(
                    packages@[picked@[perm@[b] as int] as int],
                    *agg,
                ),
        decreases perm.len() - a,
    {
        let row = &packages[picked[perm[a]]];
        ids.push(row.id);
        crates.push(join_row(row, agg));
        a = a + 1;
    }
    proof {
        let views = crate::container::crate_views(crates@);
        let records = joined_all(packages@, *agg);
        assert forall|b: int| 0 <= b < ids@.len() implies has_source(
            packages@,
            agg.libs@,
            records,
            #[trigger] ids@[b],
            views[b],
        ) by {
            let i = picked@[perm@[b] as int] as int;
            assert(is_source(packages@, agg.libs@, i, ids@[b]));
            assert(views[b] == crates@[b]@);
            assert(views[b] == records[i]);
        }
        assert forall|i: int|
            0 <= i < packages@.len() && agg.libs@.contains(
                (#[trigger] packages@[i]).id,
            ) implies exists|b: int| 0 <= b < ids@.len() && #[trigger] ids@[b] == packages@[i].id by {
            let l = choose|l: int|
                0 <= l < picked@.len() && packages@[#[trigger] picked@[l] as int].id
                    == packages@[i].id;
            assert(perm@.contains(l as usize));
            let b = choose|b: int| 0 <= b < perm@.len() && perm@[b] == l as usize;
            assert(ids@[b] == packages@[i].id);
        }
        assert forall|b: int, c: int| 0 <= b < c < ids@.len() implies ranks_before(
            key_of(#[trigger] views[b], ids@[b]),
            key_of(#[trigger] views[c], ids@[c]),
        ) by {
            let lb = perm@[b] as int;
            let lc = perm@[c] as int;
            let kb = keys@[lb]@;
            let kc = keys@[lc]@;
            assert(views[b] == crates@[b]@);
            assert(views[c] == crates@[c]@);
            assert(key_of(views[b], ids@[b]) == kb);
            assert(key_of(views[c], ids@[c]) == kc);
            assert(stands_before(keys@, perm@[b], perm@[c]));
            lemma_ranks_before_total(kb, kc);
            if kb == kc {
                assert(lb != lc);
                let ib = picked@[lb] as int;
                let ic = picked@[lc] as int;
                assert(is_source(packages@, agg.libs@, ib, packages@[ib].id));
                assert(is_source(packages@, agg.libs@, ic, packages@[ic].id));
                if lb < lc {
                    assert(ib < ic);
                    assert(packages@[ib].id != packages@[ic].id);
                } else {
                    assert(ic < ib);
                    assert(packages@[ic].id != packages@[ib].id);
                }
            }
        }
    }
    Ranking { ids, crates }
}

} // verus!
