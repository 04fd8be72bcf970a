use vstd::prelude::*;
use crate::rank::{id_views, lemma_ranks_before_total, ranks_before, ranks_before_exec};

verus! {

/// The two orders in which positions get sorted.
#[derive(Clone, Copy)]
pub enum Order {
    /// Descending key, ties by ascending position.
    Rank,
    /// Hit order (see [`ranks_before`]).
    Hit,
}

/// Position `a` may be listed before position `b` in `order`.
pub open spec fn before(order: Order, keys: Seq<u32>, ids: Seq<Seq<char>>, a: int, b: int) -> bool {
    match order {
        Order::Rank => keys[a] > keys[b] || (keys[a] == keys[b] && a <= b),
        Order::Hit => ranks_before(keys, ids, a, b),
    }
}

/// Every position in `s` is below `n`.
pub open spec fn all_below(s: Seq<usize>, n: nat) -> bool {
    forall|i: int| 0 <= i < s.len() ==> #[trigger] s[i] < n
}

/// Each position in `r` may be listed before the next one.
pub open spec fn adjacent_sorted(order: Order, keys: Seq<u32>, ids: Seq<Seq<char>>, r: Seq<usize>) -> bool {
    forall|a: int, b: int|
        #![trigger r[a], r[b]]
        0 <= a && b == a + 1 && b < r.len() ==> before(order, keys, ids, r[a] as int, r[b] as int)
}

proof fn lemma_before_total(order: Order, keys: Seq<u32>, ids: Seq<Seq<char>>, a: int, b: int)
    ensures
        before(order, keys, ids, a, b) || before(order, keys, ids, b, a),
{
    lemma_ranks_before_total(keys, ids, a, b);
}

fn before_exec(order: Order, keys: &[u32], ids: &Vec<String>, a: usize, b: usize) -> (r: bool)
    requires
        a < keys@.len(),
        b < keys@.len(),
        ids@.len() == keys@.len(),
    ensures
        r == before(order, keys@, id_views(ids@), a as int, b as int),
{
    match order {
        Order::Rank => keys[a] > keys[b] || (keys[a] == keys[b] && a <= b),
        Order::Hit => ranks_before_exec(keys, ids, a, b),
    }
}

/// Merges two sorted lists into one sorted list holding both.
fn merge(order: Order, keys: &[u32], ids: &Vec<String>, a: Vec<usize>, b: Vec<usize>) -> (r: Vec<usize>)
    requires
        ids@.len() == keys@.len(),
        all_below(a@, keys@.len()),
        all_below(b@, keys@.len()),
        adjacent_sorted(order, keys@, id_views(ids@), a@),
        adjacent_sorted(order, keys@, id_views(ids@), b@),
    ensures
        r@.to_multiset() == a@.to_multiset().add(b@.to_multiset()),
        all_below(r@, keys@.len()),
        adjacent_sorted(order, keys@, id_views(ids@), r@),
{
    broadcast use vstd::seq_lib::group_to_multiset_ensures, vstd::multiset::group_multiset_axioms;

    let ghost idv = id_views(ids@);
    let mut r: Vec<usize> = Vec::new();
    let mut i: usize = 0;
    let mut j: usize = 0;
    assert(a@.take(0) =~= Seq::<usize>::empty());
    assert(b@.take(0) =~= Seq::<usize>::empty());
    assert(r@.to_multiset() =~= a@.take(0).to_multiset().add(b@.take(0).to_multiset()));
    while i < a.len() || j < b.len()
        invariant
            ids@.len() == keys@.len(),
            idv == id_views(ids@),
            all_below(a@, keys@.len()),
            all_below(b@, keys@.len()),
            adjacent_sorted(order, keys@, idv, a@),
            adjacent_sorted(order, keys@, idv, b@),
            i <= a@.len(),
            j <= b@.len(),
            r@.len() == i + j,
            r@.to_multiset() == a@.take(i as int).to_multiset().add(b@.take(j as int).to_multiset()),
            all_below(r@, keys@.len()),
            adjacent_sorted(order, keys@, idv, r@),
            r@.len() > 0 && i < a@.len() ==> before(order, keys@, idv, r@.last() as int, a@[i as int] as int),
            r@.len() > 0 && j < b@.len() ==> before(order, keys@, idv, r@.last() as int, b@[j as int] as int),
        decreases a@.len() + b@.len() - i - j,
    {
        let ghost prev = r@;
        let take_a = j >= b.len() || (i < a.len() && before_exec(order, keys, ids, a[i], b[j]));
        if take_a {
            let x = a[i];
            r.push(x);
            proof {
                assert(a@.take(i + 1) =~= a@.take(i as int).push(x));
                assert(r@ == prev.push(x));
                vstd::seq_lib::to_multiset_build(prev, x);
                vstd::seq_lib::to_multiset_build(a@.take(i as int), x);
                assert(r@.to_multiset() =~= prev.to_multiset().insert(x));
                assert(a@.take(i + 1).to_multiset() =~= a@.take(i as int).to_multiset().insert(x));
                assert(a@.take(i + 1).to_multiset().add(b@.take(j as int).to_multiset()) =~= r@.to_multiset());
                if i + 1 < a@.len() {
                    assert(before(order, keys@, idv, a@[i as int] as int, a@[i + 1] as int));
                }
                assert(prev.len() > 0 ==> prev[prev.len() - 1] == prev.last());
            }
            i = i + 1;
        } else {
            let x = b[j];
            r.push(x);
            proof {
                assert(b@.take(j + 1) =~= b@.take(j as int).push(x));
                assert(r@ == prev.push(x));
                vstd::seq_lib::to_multiset_build(prev, x);
                vstd::seq_lib::to_multiset_build(b@.take(j as int), x);
                assert(r@.to_multiset() =~= prev.to_multiset().insert(x));
                assert(b@.take(j + 1).to_multiset() =~= b@.take(j as int).to_multiset().insert(x));
                assert(a@.take(i as int).to_multiset().add(b@.take(j + 1).to_multiset()) =~= r@.to_multiset());
                if j + 1 < b@.len() {
                    assert(before(order, keys@, idv, b@[j as int] as int, b@[j + 1] as int));
                }
                if i < a@.len() {
                    lemma_before_total(order, keys@, idv, a@[i as int] as int, x as int);
                }
            }
            j = j + 1;
        }
        proof {
            assert(r@ == prev.push(r@.last()));
            assert forall|p: int, q: int|
                #![trigger r@[p], r@[q]]
                0 <= p && q == p + 1 && q < r@.len() implies before(order, keys@, idv, r@[p] as int, r@[q] as int) by {
                if q < prev.len() {
                    assert(r@[p] == prev[p] && r@[q] == prev[q]);
                } else {
                    assert(r@[p] == prev.last());
                }
            }
        }
    }
    assert(a@.take(a@.len() as int) == a@);
    assert(b@.take(b@.len() as int) == b@);
    r
}

/// The positions `items[lo..hi]`, sorted in `order`.
pub fn sort_positions(order: Order, keys: &[u32], ids: &Vec<String>, items: &Vec<usize>, lo: usize, hi: usize) -> (r: Vec<usize>)
    requires
        lo <= hi <= items@.len(),
        ids@.len() == keys@.len(),
        all_below(items@, keys@.len()),
    ensures
        r@.to_multiset() == items@.subrange(lo as int, hi as int).to_multiset(),
        all_below(r@, keys@.len()),
        adjacent_sorted(order, keys@, id_views(ids@), r@),
    decreases hi - lo,
{
    broadcast use vstd::seq_lib::group_to_multiset_ensures, vstd::multiset::group_multiset_axioms;

    if hi - lo <= 1 {
        let mut r: Vec<usize> = Vec::new();
        if hi - lo == 1 {
            r.push(items[lo]);
            assert(items@.subrange(lo as int, hi as int) =~= Seq::<usize>::empty().push(items@[lo as int]));
            assert(r@ =~= Seq::<usize>::empty().push(items@[lo as int]));
        } else {
            assert(items@.subrange(lo as int, hi as int) =~= Seq::<usize>::empty());
            assert(r@ =~= Seq::<usize>::empty());
        }
        return r;
    }
    let mid = lo + (hi - lo) / 2;
    let left = sort_positions(order, keys, ids, items, lo, mid);
    let right = sort_positions(order, keys, ids, items, mid, hi);
    proof {
        assert(items@.subrange(lo as int, hi as int) =~= items@.subrange(lo as int, mid as int) + items@.subrange(
            mid as int,
            hi as int,
        ));
        vstd::seq_lib::lemma_multiset_commutative(
            items@.subrange(lo as int, mid as int),
            items@.subrange(mid as int, hi as int),
        );
    }
    merge(order, keys, ids, left, right)
}

} // verus!
