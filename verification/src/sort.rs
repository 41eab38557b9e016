//! The order of the ranking: by popularity, greatest first; among equals
//! by name, in the dictionary order of the UTF-8 bytes; among equal names by
//! identifier.

use vstd::multiset::*;
use vstd::prelude::*;
use vstd::seq_lib::*;
use vstd::utf8::*;

verus! {

/// What a package is ranked by.
#[derive(Debug, Clone)]
pub struct RankKey {
    pub order: u32,
    pub name: String,
    pub id: u32,
}

/// The mathematical content of a [`RankKey`]; the name stands as its UTF-8
/// bytes.
pub ghost struct RankKeyView {
    pub order: u32,
    pub name: Seq<u8>,
    pub id: u32,
}

impl View for RankKey {
    type V = RankKeyView;

    open spec fn view(&self) -> RankKeyView {
        RankKeyView { order: self.order, name: encode_utf8(self.name@), id: self.id }
    }
}

/// Whether `a` stands before `b` in dictionary order.
pub open spec fn bytes_less(a: Seq<u8>, b: Seq<u8>) -> bool
    decreases a.len(),
{
    if b.len() == 0 {
        false
    } else if a.len() == 0 {
        true
    } else if a[0] != b[0] {
        a[0] < b[0]
    } else {
        bytes_less(a.skip(1), b.skip(1))
    }
}

/// Whether a package with key `a` is ranked before one with key `b`.
pub open spec fn ranks_before(a: RankKeyView, b: RankKeyView) -> bool {
    a.order > b.order || (a.order == b.order && (bytes_less(a.name, b.name) || (a.name == b.name
        && a.id < b.id)))
}

/// Of two byte strings, one stands before the other, or they are equal.
pub proof fn lemma_bytes_less_total(a: Seq<u8>, b: Seq<u8>)
    ensures
        bytes_less(a, b) || bytes_less(b, a) || a == b,
    decreases a.len(),
{
    if a.len() == 0 || b.len() == 0 {
        if a.len() == 0 && b.len() == 0 {
            assert(a =~= b);
        }
    } else if a[0] == b[0] {
        lemma_bytes_less_total(a.skip(1), b.skip(1));
        if a.skip(1) == b.skip(1) {
            assert forall|i: int| 0 <= i < a.len() implies a[i] == b[i] by {
                if i > 0 {
                    assert(a[i] == a.skip(1)[i - 1]);
                    assert(b[i] == b.skip(1)[i - 1]);
                }
            }
            assert(a.len() == a.skip(1).len() + 1);
            assert(b.len() == b.skip(1).len() + 1);
            assert(a =~= b);
        }
    }
}

/// No byte string stands before one that stands before it, nor before
/// itself.
pub proof fn lemma_bytes_less_asymmetric(a: Seq<u8>, b: Seq<u8>)
    requires
        bytes_less(a, b),
    ensures
        !bytes_less(b, a),
        a != b,
    decreases a.len(),
{
    if a.len() > 0 && b.len() > 0 && a[0] == b[0] {
        lemma_bytes_less_asymmetric(a.skip(1), b.skip(1));
        if a == b {
            assert(a.skip(1) == b.skip(1));
        }
    }
}

/// Dictionary order is transitive.
pub proof fn lemma_bytes_less_transitive(a: Seq<u8>, b: Seq<u8>, c: Seq<u8>)
    requires
        bytes_less(a, b),
        bytes_less(b, c),
    ensures
        bytes_less(a, c),
    decreases a.len(),
{
    if a.len() > 0 && a[0] == b[0] && b[0] == c[0] {
        lemma_bytes_less_transitive(a.skip(1), b.skip(1), c.skip(1));
    }
}

/// The ranking order is transitive.
pub proof fn lemma_ranks_before_transitive(a: RankKeyView, b: RankKeyView, c: RankKeyView)
    requires
        ranks_before(a, b),
        ranks_before(b, c),
    ensures
        ranks_before(a, c),
{
    if a.order == b.order && b.order == c.order {
        if bytes_less(a.name, b.name) && bytes_less(b.name, c.name) {
            lemma_bytes_less_transitive(a.name, b.name, c.name);
        }
    }
}

/// Of two keys, one is ranked before the other, or they are equal.
pub proof fn lemma_ranks_before_total(a: RankKeyView, b: RankKeyView)
    ensures
        ranks_before(a, b) || ranks_before(b, a) || a == b,
{
    lemma_bytes_less_total(a.name, b.name);
}

/// No key is ranked before one that is ranked before it, nor before
/// itself.
pub proof fn lemma_ranks_before_asymmetric(a: RankKeyView, b: RankKeyView)
    requires
        ranks_before(a, b),
    ensures
        !ranks_before(b, a),
        a != b,
{
    if a.order == b.order {
        if bytes_less(a.name, b.name) {
            lemma_bytes_less_asymmetric(a.name, b.name);
        }
        if bytes_less(b.name, a.name) {
            lemma_bytes_less_asymmetric(b.name, a.name);
        }
    }
}

/// How one byte string stands to another in dictionary order.
#[derive(Debug, Clone, Copy, PartialEq, Eq, Structural)]
pub enum Side {
    Before,
    Same,
    After,
}

/// Compares two byte strings in dictionary order.
pub fn compare_bytes(a: &[u8], b: &[u8]) -> (side: Side)
    ensures
        side == Side::Before <==> bytes_less(a@, b@),
        side == Side::Same <==> a@ == b@,
        side == Side::After <==> bytes_less(b@, a@),
{
    let mut k: usize = 0;
    assert(a@.skip(0) =~= a@ && b@.skip(0) =~= b@);
    while k < a.len() && k < b.len()
        invariant
            k <= a.len(),
            k <= b.len(),
            bytes_less(a@, b@) == bytes_less(a@.skip(k as int), b@.skip(k as int)),
            bytes_less(b@, a@) == bytes_less(b@.skip(k as int), a@.skip(k as int)),
            (a@ == b@) == (a@.skip(k as int) == b@.skip(k as int)),
        decreases a.len() - k,
    {
        let ghost ra = a@.skip(k as int);
        let ghost rb = b@.skip(k as int);
        proof {
            assert(ra[0] == a@[k as int] && rb[0] == b@[k as int]);
            assert(ra.skip(1) =~= a@.skip(k + 1));
            assert(rb.skip(1) =~= b@.skip(k + 1));
        }
        if a[k] != b[k] {
            return if a[k] < b[k] {
                Side::Before
            } else {
                Side::After
            };
        }
        proof {
            if ra.skip(1) == rb.skip(1) {
                assert(ra =~= seq![ra[0]] + ra.skip(1));
                assert(rb =~= seq![rb[0]] + rb.skip(1));
            }
        }
        k = k + 1;
    }
    proof {
        let ra = a@.skip(k as int);
        let rb = b@.skip(k as int);
        if ra.len() == 0 && rb.len() == 0 {
            assert(ra =~= rb);
        }
    }
    if k < b.len() {
        Side::Before
    } else if k < a.len() {
        Side::After
    } else {
        Side::Same
    }
}

/// Whether a package with key `a` is ranked before one with key `b`.
pub fn key_before(a: &RankKey, b: &RankKey) -> (before: bool)
    ensures
        before == ranks_before(a@, b@),
{
    if a.order != b.order {
        a.order > b.order
    } else {
        match compare_bytes(a.name.as_str().as_bytes(), b.name.as_str().as_bytes()) {
            Side::Before => true,
            Side::After => {
                proof {
                    lemma_bytes_less_asymmetric(b@.name, a@.name);
                }
                false
            },
            Side::Same => {
                proof {
                    if bytes_less(a@.name, b@.name) {
                        lemma_bytes_less_asymmetric(a@.name, b@.name);
                    }
                }
                a.id < b.id
            },
        }
    }
}

/// Whether every position in `perm` is one of `keys`.
pub open spec fn in_range(perm: Seq<usize>, n: nat) -> bool {
    forall|a: int| 0 <= a < perm.len() ==> #[trigger] perm[a] < n
}

/// Whether every position in `perm` lies between `lo` and `hi`.
pub open spec fn between(perm: Seq<usize>, lo: usize, hi: usize) -> bool {
    forall|a: int| 0 <= a < perm.len() ==> lo <= #[trigger] perm[a] < hi
}

/// Whether position `p` stands before position `q`: its key is ranked
/// before the other, or neither key is ranked before the other and `p` is
/// the smaller position.
pub open spec fn stands_before(keys: Seq<RankKey>, p: usize, q: usize) -> bool {
    ranks_before(keys[p as int]@, keys[q as int]@) || (!ranks_before(
        keys[q as int]@,
        keys[p as int]@,
    ) && p < q)
}

/// Whether the positions in `perm` are in order: each stands before all
/// that follow it.
pub open spec fn in_order(keys: Seq<RankKey>, perm: Seq<usize>) -> bool {
    forall|a: int, b: int|
        0 <= a < b < perm.len() ==> stands_before(keys, #[trigger] perm[a], #[trigger] perm[b])
}

/// If `p` stands before `q` and `q` before `r`, then `p` stands before
/// `r`.
pub proof fn lemma_stands_before_transitive(keys: Seq<RankKey>, p: usize, q: usize, r: usize)
    requires
        stands_before(keys, p, q),
        stands_before(keys, q, r),
    ensures
        stands_before(keys, p, r),
{
    let kp = keys[p as int]@;
    let kq = keys[q as int]@;
    let kr = keys[r as int]@;
    lemma_ranks_before_total(kp, kq);
    lemma_ranks_before_total(kq, kr);
    if ranks_before(kp, kq) && ranks_before(kq, kr) {
        lemma_ranks_before_transitive(kp, kq, kr);
    }
    if ranks_before(kr, kp) {
        if ranks_before(kp, kq) {
            lemma_ranks_before_transitive(kr, kp, kq);
            lemma_ranks_before_asymmetric(kr, kq);
        }
        if ranks_before(kq, kr) {
            lemma_ranks_before_transitive(kq, kr, kp);
            lemma_ranks_before_asymmetric(kq, kp);
        }
    }
    if ranks_before(kp, kq) {
        lemma_ranks_before_asymmetric(kp, kq);
    }
    if ranks_before(kq, kr) {
        lemma_ranks_before_asymmetric(kq, kr);
    }
}

/// Merges two runs of positions that are in order into one. Every position
/// of the first run is below `pivot`, every position of the second is not.
fn merge(keys: &Vec<RankKey>, left: &Vec<usize>, right: &Vec<usize>, pivot: usize) -> (out: Vec<
    usize,
>)
    requires
        in_range(left@, keys@.len()),
        in_range(right@, keys@.len()),
        in_order(keys@, left@),
        in_order(keys@, right@),
        forall|a: int| 0 <= a < left@.len() ==> #[trigger] left@[a] < pivot,
        forall|b: int| 0 <= b < right@.len() ==> pivot <= #[trigger] right@[b],
    ensures
        in_order(keys@, out@),
        out@.to_multiset() == left@.to_multiset().add(right@.to_multiset()),
        forall|lo: usize, hi: usize|
            between(left@, lo, hi) && between(right@, lo, hi) ==> between(out@, lo, hi),
{
    broadcast use group_multiset_axioms;

    let mut out: Vec<usize> = Vec::new();
    let mut i: usize = 0;
    let mut j: usize = 0;
    proof {
        assert(left@.take(0) =~= Seq::<usize>::empty());
        assert(right@.take(0) =~= Seq::<usize>::empty());
        assert(out@ =~= Seq::<usize>::empty());
        Seq::<usize>::empty().to_multiset_ensures();
        assert(out@.to_multiset() =~= left@.take(0).to_multiset().add(
            right@.take(0).to_multiset(),
        ));
    }
    while i < left.len() || j < right.len()
        invariant
            i <= left.len(),
            j <= right.len(),
            in_range(left@, keys@.len()),
            in_range(right@, keys@.len()),
            in_order(keys@, left@),
            in_order(keys@, right@),
            forall|a: int| 0 <= a < left@.len() ==> #[trigger] left@[a] < pivot,
            forall|b: int| 0 <= b < right@.len() ==> pivot <= #[trigger] right@[b],
            in_order(keys@, out@),
            out@.to_multiset() == left@.take(i as int).to_multiset().add(
                right@.take(j as int).to_multiset(),
            ),
            forall|a: int|
                0 <= a < out@.len() ==> (exists|b: int| 0 <= b < left@.len() && left@[b] == out@[a])
                    || (exists|b: int| 0 <= b < right@.len() && right@[b] == #[trigger] out@[a]),
            forall|a: int|
                0 <= a < out@.len() && i < left@.len() ==> stands_before(
                    keys@,
                    #[trigger] out@[a],
                    left@[i as int],
                ),
            forall|a: int|
                0 <= a < out@.len() && j < right@.len() ==> stands_before(
                    keys@,
                    #[trigger] out@[a],
                    right@[j as int],
                ),
        decreases left.len() - i + right.len() - j,
    {
        let ghost done = out@;
        let from_left: bool = if i == left.len() {
            false
        } else if j == right.len() {
            true
        } else {
            !key_before(&keys[right[j]], &keys[left[i]])
        };
        if from_left {
            let x: usize = left[i];
            out.push(x);
            proof {
                assert(left@.take(i + 1) =~= left@.take(i as int).push(x));
                to_multiset_build(left@.take(i as int), x);
                to_multiset_build(done, x);
                assert(out@.to_multiset() =~= left@.take(i + 1).to_multiset().add(
                    right@.take(j as int).to_multiset(),
                ));
                assert forall|a: int, b: int| 0 <= a < b < out@.len() implies stands_before(
                    keys@,
                    #[trigger] out@[a],
                    #[trigger] out@[b],
                ) by {
                    assert(out@[a] == done[a]);
                    if b < done.len() {
                        assert(out@[b] == done[b]);
                    }
                }
                assert forall|a: int| 0 <= a < out@.len() implies (exists|b: int|
                    0 <= b < left@.len() && left@[b] == out@[a]) || (exists|b: int|
                    0 <= b < right@.len() && right@[b] == #[trigger] out@[a]) by {
                    if a < done.len() {
                        assert(out@[a] == done[a]);
                    } else {
                        assert(left@[i as int] == out@[a]);
                    }
                }
                if i + 1 < left@.len() {
                    let next: usize = left@[i + 1];
                    assert(stands_before(keys@, x, next));
                    assert forall|a: int| 0 <= a < out@.len() implies stands_before(
                        keys@,
                        #[trigger] out@[a],
                        next,
                    ) by {
                        if a < done.len() {
                            assert(out@[a] == done[a]);
                            lemma_stands_before_transitive(keys@, done[a], x, next);
                        }
                    }
                }
                if j < right@.len() {
                    assert(x < pivot && pivot <= right@[j as int]);
                    assert forall|a: int| 0 <= a < out@.len() implies stands_before(
                        keys@,
                        #[trigger] out@[a],
                        right@[j as int],
                    ) by {
                        if a < done.len() {
                            assert(out@[a] == done[a]);
                        }
                    }
                }
            }
            i = i + 1;
        } else {
            let y: usize = right[j];
            out.push(y);
            proof {
                assert(right@.take(j + 1) =~= right@.take(j as int).push(y));
                to_multiset_build(right@.take(j as int), y);
                to_multiset_build(done, y);
                assert(out@.to_multiset() =~= left@.take(i as int).to_multiset().add(
                    right@.take(j + 1).to_multiset(),
                ));
                assert forall|a: int, b: int| 0 <= a < b < out@.len() implies stands_before(
                    keys@,
                    #[trigger] out@[a],
                    #[trigger] out@[b],
                ) by {
                    assert(out@[a] == done[a]);
                    if b < done.len() {
                        assert(out@[b] == done[b]);
                    }
                }
                assert forall|a: int| 0 <= a < out@.len() implies (exists|b: int|
                    0 <= b < left@.len() && left@[b] == out@[a]) || (exists|b: int|
                    0 <= b < right@.len() && right@[b] == #[trigger] out@[a]) by {
                    if a < done.len() {
                        assert(out@[a] == done[a]);
                    } else {
                        assert(right@[j as int] == out@[a]);
                    }
                }
                if j + 1 < right@.len() {
                    let next: usize = right@[j + 1];
                    assert(stands_before(keys@, y, next));
                    assert forall|a: int| 0 <= a < out@.len() implies stands_before(
                        keys@,
                        #[trigger] out@[a],
                        next,
                    ) by {
                        if a < done.len() {
                            assert(out@[a] == done[a]);
                            lemma_stands_before_transitive(keys@, done[a], y, next);
                        }
                    }
                }
                if i < left@.len() {
                    assert forall|a: int| 0 <= a < out@.len() implies stands_before(
                        keys@,
                        #[trigger] out@[a],
                        left@[i as int],
                    ) by {
                        if a < done.len() {
                            assert(out@[a] == done[a]);
                        }
                    }
                }
            }
            j = j + 1;
        }
    }
    proof {
        assert(left@.take(i as int) =~= left@);
        assert(right@.take(j as int) =~= right@);
        assert forall|lo: usize, hi: usize|
            between(left@, lo, hi) && between(right@, lo, hi) implies between(out@, lo, hi) by {
            assert forall|a: int| 0 <= a < out@.len() implies lo <= #[trigger] out@[a] < hi by {
                if exists|b: int| 0 <= b < left@.len() && left@[b] == out@[a] {
                    let b = choose|b: int| 0 <= b < left@.len() && left@[b] == out@[a];
                    assert(lo <= left@[b] < hi);
                } else {
                    let b = choose|b: int| 0 <= b < right@.len() && right@[b] == out@[a];
                    assert(lo <= right@[b] < hi);
                }
            }
        }
    }
    out
}

/// Puts the positions in `items`, which rise and lie between `lo` and
/// `hi`, in order.
fn sort_part(keys: &Vec<RankKey>, items: Vec<usize>, lo: usize, hi: usize) -> (out: Vec<usize>)
    requires
        hi <= keys@.len(),
        between(items@, lo, hi),
        forall|a: int, b: int| 0 <= a < b < items@.len() ==> items@[a] < items@[b],
    ensures
        between(out@, lo, hi),
        in_order(keys@, out@),
        out@.to_multiset() == items@.to_multiset(),
    decreases items@.len(),
{
    if items.len() <= 1 {
        return items;
    }
    let ghost whole = items@;
    let mid: usize = items.len() / 2;
    let pivot: usize = items[mid];
    let mut left = items;
    let right = left.split_off(mid);
    proof {
        assert(whole =~= left@ + right@);
        lemma_multiset_commutative(left@, right@);
        assert forall|a: int| 0 <= a < left@.len() implies lo <= #[trigger] left@[a] < pivot by {
            assert(left@[a] == whole[a]);
        }
        assert forall|a: int| 0 <= a < right@.len() implies pivot <= #[trigger] right@[a]
            < hi by {
            assert(right@[a] == whole[a + mid]);
        }
        assert forall|a: int, b: int| 0 <= a < b < left@.len() implies left@[a] < left@[b] by {
            assert(left@[a] == whole[a] && left@[b] == whole[b]);
        }
        assert forall|a: int, b: int| 0 <= a < b < right@.len() implies right@[a] < right@[b] by {
            assert(right@[a] == whole[a + mid] && right@[b] == whole[b + mid]);
        }
    }
    let sorted_left = sort_part(keys, left, lo, pivot);
    let sorted_right = sort_part(keys, right, pivot, hi);
    proof {
        assert(between(sorted_left@, lo, hi));
        assert(between(sorted_right@, lo, hi));
        assert(in_range(sorted_left@, keys@.len()));
        assert(in_range(sorted_right@, keys@.len()));
    }
    merge(keys, &sorted_left, &sorted_right, pivot)
}

/// The positions of `keys` in order: each position once, and each before
/// all that follow it. Positions with equal keys keep their order.
pub fn sort_keys(keys: &Vec<RankKey>) -> (perm: Vec<usize>)
    ensures
        perm@.len() == keys@.len(),
        in_range(perm@, keys@.len()),
        perm@.no_duplicates(),
        forall|k: usize| k < keys@.len() ==> perm@.contains(k),
        in_order(keys@, perm@),
{
    broadcast use group_multiset_axioms;

    let mut items: Vec<usize> = Vec::new();
    let mut k: usize = 0;
    while k < keys.len()
        invariant
            k <= keys.len(),
            items@.len() == k,
            forall|a: int| 0 <= a < k ==> #[trigger] items@[a] == a,
        decreases keys.len() - k,
    {
        items.push(k);
        k = k + 1;
    }
    let ghost all = items@;
    let perm = sort_part(keys, items, 0, keys.len());
    proof {
        all.to_multiset_ensures();
        perm@.to_multiset_ensures();
        assert(all.no_duplicates());
        all.lemma_multiset_has_no_duplicates();
        perm@.lemma_multiset_has_no_duplicates_conv();
        assert forall|k: usize| k < keys@.len() implies perm@.contains(k) by {
            assert(all[k as int] == k);
            assert(all.contains(k));
            assert(all.to_multiset().count(k) > 0);
            assert(perm@.to_multiset().count(k) > 0);
        }
    }
    perm
}

} // verus!
