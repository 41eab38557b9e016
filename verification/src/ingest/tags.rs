//! The keywords and the categories of each package.

use crate::rows::TagLink;
use std::collections::BTreeMap;
use vstd::prelude::*;

verus! {

/// The keywords (or categories) of package `p`, in the order of their
/// rows; a pair that occurs twice in the rows occurs twice here.
pub open spec fn tags_of(links: Seq<TagLink>, p: u32) -> Seq<u32>
    decreases links.len(),
{
    if links.len() == 0 {
        Seq::empty()
    } else if links.last().crate_id == p {
        tags_of(links.drop_last(), p).push(links.last().tag_id)
    } else {
        tags_of(links.drop_last(), p)
    }
}

/// Whether `lists` holds, for every package, its keywords (or categories)
/// in `links`. A package without an entry has none.
pub open spec fn lists_match(lists: Map<u32, Vec<u32>>, links: Seq<TagLink>) -> bool {
    forall|p: u32|
        if lists.contains_key(p) {
            lists[p]@ == #[trigger] tags_of(links, p)
        } else {
            tags_of(links, p) == Seq::<u32>::empty()
        }
}

/// Collects the keywords (or categories) of each package.
pub fn tag_lists(links: &Vec<TagLink>) -> (lists: BTreeMap<u32, Vec<u32>>)
    ensures
        lists_match(lists@, links@),
{
    let mut lists: BTreeMap<u32, Vec<u32>> = BTreeMap::new();
    let mut n: usize = 0;
    while n < links.len()
        invariant
            n <= links.len(),
            lists_match(lists@, links@.take(n as int)),
        decreases links.len() - n,
    {
        let p: u32 = links[n].crate_id;
        let ghost before = links@.take(n as int);
        let ghost after = links@.take(n + 1);
        let ghost old_lists = lists@;
        let mut list: Vec<u32> = match lists.remove(&p) {
            Some(list) => list,
            None => Vec::new(),
        };
        assert(list@ == tags_of(before, p));
        list.push(links[n].tag_id);
        lists.insert(p, list);
        proof {
            assert(after.drop_last() =~= before);
            assert(after.last() == links@[n as int]);
            assert forall|q: u32|
                if lists@.contains_key(q) {
                    lists@[q]@ == #[trigger] tags_of(after, q)
                } else {
                    tags_of(after, q) == Seq::<u32>::empty()
                } by {
                if q != p {
                    assert(lists@.contains_key(q) == old_lists.contains_key(q));
                    assert(tags_of(before, q) == tags_of(after, q));
                }
            }
        }
        n = n + 1;
    }
    assert(links@.take(n as int) =~= links@);
    lists
}

} // verus!
