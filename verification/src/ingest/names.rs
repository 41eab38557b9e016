//! The tables from keyword and category identifiers to names.

use crate::rows::TagName;
use std::collections::BTreeMap;
use vstd::prelude::*;
use vstd::std_specs::btree::*;
use vstd::std_specs::cmp::OrdSpec;
use vstd::std_specs::iter::IteratorSpec;

verus! {

/// The name of keyword (or category) `id`: that of the first row with this
/// identifier; later rows with the same identifier change nothing.
pub open spec fn first_name(rows: Seq<TagName>, id: u32) -> Option<Seq<char>>
    decreases rows.len(),
{
    if rows.len() == 0 {
        None
    } else {
        match first_name(rows.drop_last(), id) {
            Some(name) => Some(name),
            None => if rows.last().id == id {
                Some(rows.last().name@)
            } else {
                None
            },
        }
    }
}

/// Every identifier that occurs in the rows has a name.
pub proof fn lemma_every_id_named(rows: Seq<TagName>, i: int)
    requires
        0 <= i < rows.len(),
    ensures
        first_name(rows, rows[i].id) is Some,
    decreases rows.len(),
{
    if i < rows.len() - 1 {
        lemma_every_id_named(rows.drop_last(), i);
    }
}

/// An identifier that has a name occurs in the rows.
pub proof fn lemma_named_id_occurs(rows: Seq<TagName>, id: u32) -> (i: int)
    requires
        first_name(rows, id) is Some,
    ensures
        0 <= i < rows.len(),
        rows[i].id == id,
    decreases rows.len(),
{
    if first_name(rows.drop_last(), id) is Some {
        lemma_named_id_occurs(rows.drop_last(), id)
    } else {
        rows.len() - 1
    }
}

/// Whether `names` holds the name of every identifier in `rows`, and of no
/// other.
pub open spec fn names_match(names: Map<u32, String>, rows: Seq<TagName>) -> bool {
    forall|id: u32|
        if names.contains_key(id) {
            #[trigger] first_name(rows, id) == Some(names[id]@)
        } else {
            first_name(rows, id) is None
        }
}

/// Whether `table` is the table of the names in `rows`: its identifiers
/// rise strictly, so that none occurs twice; each entry holds the name of
/// its identifier; and every identifier in `rows` has an entry.
pub open spec fn is_name_table(table: Seq<(u32, String)>, rows: Seq<TagName>) -> bool {
    &&& forall|a: int, b: int| 0 <= a < b < table.len() ==> table[a].0 < table[b].0
    &&& forall|a: int|
        0 <= a < table.len() ==> first_name(rows, (#[trigger] table[a]).0) == Some(table[a].1@)
    &&& forall|i: int|
        0 <= i < rows.len() ==> exists|a: int|
            0 <= a < table.len() && #[trigger] table[a].0 == (#[trigger] rows[i]).id
}

/// An identifier has exactly one entry in the table of names, however
/// often it occurs in the rows.
pub proof fn lemma_one_entry_per_id(table: Seq<(u32, String)>, rows: Seq<TagName>, i: int) -> (a:
    int)
    requires
        is_name_table(table, rows),
        0 <= i < rows.len(),
    ensures
        0 <= a < table.len(),
        table[a].0 == rows[i].id,
        forall|b: int| 0 <= b < table.len() && table[b].0 == rows[i].id ==> b == a,
{
    let id = rows[i].id;
    let a = choose|a: int| 0 <= a < table.len() && #[trigger] table[a].0 == id;
    assert forall|b: int| 0 <= b < table.len() && table[b].0 == id implies b == a by {
        if b < a {
            assert(table[b].0 < table[a].0);
        } else if a < b {
            assert(table[a].0 < table[b].0);
        }
    }
    a
}

/// Every entry of the table of names bears an identifier that occurs in
/// the rows.
pub proof fn lemma_entry_id_occurs(table: Seq<(u32, String)>, rows: Seq<TagName>, a: int) -> (i:
    int)
    requires
        is_name_table(table, rows),
        0 <= a < table.len(),
    ensures
        0 <= i < rows.len(),
        rows[i].id == table[a].0,
{
    assert(first_name(rows, table[a].0) == Some(table[a].1@));
    lemma_named_id_occurs(rows, table[a].0)
}

/// Collects the name of each keyword (or category); the first row of an
/// identifier decides.
fn first_names(rows: &Vec<TagName>) -> (names: BTreeMap<u32, String>)
    ensures
        names_match(names@, rows@),
{
    let mut names: BTreeMap<u32, String> = BTreeMap::new();
    let mut n: usize = 0;
    while n < rows.len()
        invariant
            n <= rows.len(),
            names_match(names@, rows@.take(n as int)),
        decreases rows.len() - n,
    {
        let ghost before = rows@.take(n as int);
        let ghost after = rows@.take(n + 1);
        let ghost old_names = names@;
        proof {
            assert(after.drop_last() =~= before);
            assert(after.last() == rows@[n as int]);
        }
        if !names.contains_key(&rows[n].id) {
            names.insert(rows[n].id, rows[n].name.clone());
        }
        proof {
            assert forall|id: u32|
                if names@.contains_key(id) {
                    #[trigger] first_name(after, id) == Some(names@[id]@)
                } else {
                    first_name(after, id) is None
                } by {
                if id != rows@[n as int].id {
                    assert(names@.contains_key(id) == old_names.contains_key(id));
                    assert(first_name(before, id) == first_name(after, id));
                }
            }
        }
        n = n + 1;
    }
    assert(rows@.take(n as int) =~= rows@);
    names
}

/// The entries of `names`, by ascending identifier.
fn sorted_entries(names: &BTreeMap<u32, String>) -> (table: Vec<(u32, String)>)
    ensures
        forall|a: int, b: int| 0 <= a < b < table@.len() ==> table@[a].0 < table@[b].0,
        forall|a: int|
            0 <= a < table@.len() ==> names@.contains_key(#[trigger] table@[a].0)
                && names@[table@[a].0] == table@[a].1,
        forall|id: u32|
            names@.contains_key(id) ==> exists|a: int|
                0 <= a < table@.len() && #[trigger] table@[a].0 == id,
{
    broadcast use group_btree_axioms;

    let mut table: Vec<(u32, String)> = Vec::new();
    let ghost all = names.iter().remaining();
    for entry in it: names.iter()
        invariant
            it.seq() == all,
            table@.len() == it.index(),
            forall|a: int|
                0 <= a < table@.len() ==> table@[a].0 == *all[a].0 && table@[a].1 == *all[a].1,
    {
        table.push((*entry.0, entry.1.clone()));
    }
    proof {
        let keys = all.map_values(|kv: (&u32, &String)| *kv.0);
        assert(increasing_seq(keys));
        assert forall|a: int, b: int| 0 <= a < b < table@.len() implies table@[a].0
            < table@[b].0 by {
            assert(keys[a] == table@[a].0);
            assert(keys[b] == table@[b].0);
            assert(keys[a].cmp_spec(&keys[b]) is Less);
        }
        assert forall|a: int| 0 <= a < table@.len() implies names@.contains_key(
            #[trigger] table@[a].0,
        ) && names@[table@[a].0] == table@[a].1 by {
            assert(names@.contains_key(*all[a].0));
            assert(names@[*all[a].0] == *all[a].1);
        }
        assert forall|id: u32| names@.contains_key(id) implies exists|a: int|
            0 <= a < table@.len() && #[trigger] table@[a].0 == id by {
            assert(all.contains((&id, &names@[id])));
            let a = choose|a: int| 0 <= a < all.len() && all[a] == (&id, &names@[id]);
            assert(table@[a].0 == id);
        }
    }
    table
}

/// The table of keyword (or category) names: one entry for each
/// identifier that occurs in `rows`, however often it occurs, with the
/// name of its first row, by ascending identifier.
pub fn name_table(rows: &Vec<TagName>) -> (table: Vec<(u32, String)>)
    ensures
        is_name_table(table@, rows@),
{
    let names = first_names(rows);
    let table = sorted_entries(&names);
    proof {
        assert forall|a: int| 0 <= a < table@.len() implies first_name(
            rows@,
            (#[trigger] table@[a]).0,
        ) == Some(table@[a].1@) by {
            assert(names@.contains_key(table@[a].0));
        }
        assert forall|i: int| 0 <= i < rows@.len() implies exists|a: int|
            0 <= a < table@.len() && #[trigger] table@[a].0 == (#[trigger] rows@[i]).id by {
            lemma_every_id_named(rows@, i);
            assert(names@.contains_key(rows@[i].id));
        }
    }
    table
}

} // verus!
