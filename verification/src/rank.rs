use vstd::prelude::*;
use crate::order::{id_le, id_le_exec, lemma_id_le_antisymmetric, lemma_id_le_total, lemma_id_le_transitive};
use crate::sort::{adjacent_sorted, all_below, before, sort_positions, Order};
use vstd::set_lib::lemma_len_subset;

verus! {

/// Key `0` stands for a score that is not a number (a NaN); every number has
/// a larger key.
pub open spec fn unscored(keys: Seq<u32>, p: int) -> bool {
    keys[p] == 0
}

/// Position `a` ranks strictly above position `b` when the top `k` numbers
/// are chosen: a higher key, or an equal key and an earlier position.
pub open spec fn outranks(keys: Seq<u32>, a: int, b: int) -> bool {
    keys[a] > keys[b] || (keys[a] == keys[b] && a < b)
}

/// `sel` holds, once each, the `k` positions kept by a top-`k` query. A NaN
/// score compares equal to every score, so it neither pushes an entry out
/// nor is pushed out: the NaN-scored entries among the first `k` are kept
/// and no later one enters; the remaining places go to the numbers that
/// outrank every number left out.
pub open spec fn is_top_k(keys: Seq<u32>, sel: Seq<usize>, k: int) -> bool {
    &&& sel.len() == k
    &&& sel.no_duplicates()
    &&& forall|j: int| 0 <= j < sel.len() ==> sel[j] < keys.len()
    &&& forall|x: usize| #[trigger] sel.contains(x) && unscored(keys, x as int) ==> x < k
    &&& forall|x: usize| x < k && x < keys.len() && unscored(keys, x as int) ==> #[trigger] sel.contains(x)
    &&& forall|x: usize, y: usize|
        #![trigger sel.contains(x), sel.contains(y)]
        sel.contains(x) && !unscored(keys, x as int) && y < keys.len() && !unscored(keys, y as int)
            && !sel.contains(y) ==> outranks(keys, x as int, y as int)
}

/// Position `p` may be reported before position `q`: between numbers, a
/// higher key or an equal key and an id that sorts no later; where a NaN
/// is involved the scores compare equal, so the ids decide.
pub open spec fn ranks_before(keys: Seq<u32>, ids: Seq<Seq<char>>, p: int, q: int) -> bool {
    if unscored(keys, p) || unscored(keys, q) {
        id_le(ids[p], ids[q])
    } else {
        keys[p] > keys[q] || (keys[p] == keys[q] && id_le(ids[p], ids[q]))
    }
}

/// `r` is in hit order: every position may be reported before the next one.
/// Where no score is NaN this is descending key, ties by ascending id,
/// between any two positions (see [`lemma_hit_order_pairwise`]).
pub open spec fn in_hit_order(keys: Seq<u32>, ids: Seq<Seq<char>>, r: Seq<usize>) -> bool {
    adjacent_sorted(Order::Hit, keys, ids, r)
}

/// The ids of a sequence of strings, as character sequences.
pub open spec fn id_views(ids: Seq<String>) -> Seq<Seq<char>> {
    ids.map_values(|s: String| s@)
}

pub proof fn lemma_ranks_before_total(keys: Seq<u32>, ids: Seq<Seq<char>>, p: int, q: int)
    ensures
        ranks_before(keys, ids, p, q) || ranks_before(keys, ids, q, p),
{
    lemma_id_le_total(ids[p], ids[q]);
}

proof fn lemma_ranks_before_transitive(keys: Seq<u32>, ids: Seq<Seq<char>>, p: int, q: int, s: int)
    requires
        !unscored(keys, p),
        !unscored(keys, q),
        !unscored(keys, s),
        ranks_before(keys, ids, p, q),
        ranks_before(keys, ids, q, s),
    ensures
        ranks_before(keys, ids, p, s),
{
    if keys[p] == keys[q] && keys[q] == keys[s] {
        lemma_id_le_transitive(ids[p], ids[q], ids[s]);
    }
}

pub fn ranks_before_exec(keys: &[u32], ids: &Vec<String>, p: usize, q: usize) -> (r: bool)
    requires
        p < keys@.len(),
        q < keys@.len(),
        ids@.len() == keys@.len(),
    ensures
        r == ranks_before(keys@, id_views(ids@), p as int, q as int),
{
    if keys[p] == 0 || keys[q] == 0 {
        id_le_exec(&ids[p], &ids[q])
    } else {
        keys[p] > keys[q] || (keys[p] == keys[q] && id_le_exec(&ids[p], &ids[q]))
    }
}

/// Two positions of a sorted list are in order, where the order is
/// transitive on the list: always for `Rank`, and for `Hit` when no listed
/// score is NaN.
proof fn lemma_sorted_pair(order: Order, keys: Seq<u32>, ids: Seq<Seq<char>>, r: Seq<usize>, a: int, b: int)
    requires
        adjacent_sorted(order, keys, ids, r),
        all_below(r, keys.len()),
        order is Hit ==> forall|i: int| 0 <= i < r.len() ==> !unscored(keys, #[trigger] r[i] as int),
        0 <= a < b < r.len(),
    ensures
        before(order, keys, ids, r[a] as int, r[b] as int),
    decreases b - a,
{
    assert(before(order, keys, ids, r[b - 1] as int, r[b] as int));
    if b > a + 1 {
        lemma_sorted_pair(order, keys, ids, r, a, b - 1);
        if order is Hit {
            assert(!unscored(keys, r[a] as int) && !unscored(keys, r[b - 1] as int) && !unscored(keys, r[b] as int));
            lemma_ranks_before_transitive(keys, ids, r[a] as int, r[b - 1] as int, r[b] as int);
        }
    }
}

/// Where no listed score is NaN, a list in hit order is ordered between any
/// two of its positions.
pub proof fn lemma_hit_order_pairwise(keys: Seq<u32>, ids: Seq<Seq<char>>, r: Seq<usize>)
    requires
        in_hit_order(keys, ids, r),
        all_below(r, keys.len()),
        forall|i: int| 0 <= i < r.len() ==> !unscored(keys, #[trigger] r[i] as int),
    ensures
        forall|a: int, b: int|
            0 <= a < b < r.len() ==> #[trigger] ranks_before(keys, ids, r[a] as int, r[b] as int),
{
    assert forall|a: int, b: int| 0 <= a < b < r.len() implies #[trigger] ranks_before(
        keys,
        ids,
        r[a] as int,
        r[b] as int,
    ) by {
        lemma_sorted_pair(Order::Hit, keys, ids, r, a, b);
    }
}

/// Lists with the same multiset of positions hold the same positions, and
/// one without repeats makes the other without repeats.
proof fn lemma_same_members(s: Seq<usize>, t: Seq<usize>)
    requires
        s.to_multiset() == t.to_multiset(),
    ensures
        s.len() == t.len(),
        forall|x: usize| s.contains(x) <==> t.contains(x),
        t.no_duplicates() ==> s.no_duplicates(),
{
    vstd::seq_lib::to_multiset_len(s);
    vstd::seq_lib::to_multiset_len(t);
    assert forall|x: usize| s.contains(x) <==> t.contains(x) by {
        vstd::seq_lib::to_multiset_contains(s, x);
        vstd::seq_lib::to_multiset_contains(t, x);
    }
    if t.no_duplicates() {
        t.lemma_multiset_has_no_duplicates();
        s.lemma_multiset_has_no_duplicates_conv();
    }
}

/// The positions kept by a top-`k` query (see [`is_top_k`]), in no
/// particular order.
fn select_top_k(keys: &[u32], ids: &Vec<String>, k: usize) -> (sel: Vec<usize>)
    requires
        0 < k <= keys@.len(),
        ids@.len() == keys@.len(),
    ensures
        is_top_k(keys@, sel@, k as int),
{
    let n = keys.len();
    let mut nans: Vec<usize> = Vec::new();
    let mut nums: Vec<usize> = Vec::new();
    let mut c: usize = 0;
    let mut i: usize = 0;
    while i < n
        invariant
            n == keys@.len(),
            0 < k <= n,
            i <= n,
            forall|a: int, b: int| 0 <= a < b < nans@.len() ==> nans@[a] < nans@[b],
            forall|a: int, b: int| 0 <= a < b < nums@.len() ==> nums@[a] < nums@[b],
            forall|t: int| 0 <= t < nans@.len() ==> #[trigger] nans@[t] < i && nans@[t] < k && unscored(keys@, nans@[t] as int),
            forall|t: int| 0 <= t < nums@.len() ==> #[trigger] nums@[t] < i && !unscored(keys@, nums@[t] as int),
            forall|x: usize| x < i && x < k && unscored(keys@, x as int) ==> #[trigger] nans@.contains(x),
            forall|x: usize| x < i && !unscored(keys@, x as int) ==> #[trigger] nums@.contains(x),
            nans@.len() + c == if i < k { i as int } else { k as int },
            c <= nums@.len(),
        decreases n - i,
    {
        let ghost (pn, pm) = (nans@, nums@);
        if keys[i] == 0 {
            if i < k {
                nans.push(i);
            }
        } else {
            nums.push(i);
            if i < k {
                c = c + 1;
            }
        }
        proof {
            assert forall|x: usize| x < i + 1 && x < k && unscored(keys@, x as int) implies #[trigger] nans@.contains(x) by {
                if x < i {
                    assert(pn.contains(x));
                    let t = choose|t: int| 0 <= t < pn.len() && pn[t] == x;
                    assert(nans@[t] == x);
                } else {
                    assert(nans@[nans@.len() - 1] == x);
                }
            }
            assert forall|x: usize| x < i + 1 && !unscored(keys@, x as int) implies #[trigger] nums@.contains(x) by {
                if x < i {
                    assert(pm.contains(x));
                    let t = choose|t: int| 0 <= t < pm.len() && pm[t] == x;
                    assert(nums@[t] == x);
                } else {
                    assert(nums@[nums@.len() - 1] == x);
                }
            }
        }
        i = i + 1;
    }
    proof {
        assert forall|t: int| 0 <= t < nums@.len() implies #[trigger] nums@[t] < keys@.len() by {}
    }
    let sorted = sort_positions(Order::Rank, keys, ids, &nums, 0, nums.len());
    let ghost idv = id_views(ids@);
    proof {
        assert(nums@.subrange(0, nums@.len() as int) == nums@);
        assert(nums@.no_duplicates()) by {
            assert forall|a: int, b: int| 0 <= a < b < nums@.len() implies nums@[a] != nums@[b] by {}
        }
        lemma_same_members(sorted@, nums@);
    }
    let m = nans.len();
    let take = k - m;
    let mut sel = nans;
    let ghost base = sel@;
    let mut t: usize = 0;
    while t < take
        invariant
            take <= sorted@.len(),
            t <= take,
            sel@ == base + sorted@.take(t as int),
        decreases take - t,
    {
        sel.push(sorted[t]);
        t = t + 1;
        assert(sel@ =~= base + sorted@.take(t as int));
    }
    proof {
        let pre = sorted@.take(take as int);
        assert(sel@ == base + pre);
        assert forall|a: int, b: int| 0 <= a < b < sorted@.len() implies before(
            Order::Rank,
            keys@,
            idv,
            sorted@[a] as int,
            sorted@[b] as int,
        ) by {
            lemma_sorted_pair(Order::Rank, keys@, idv, sorted@, a, b);
        }
        assert forall|x: usize| #[trigger] sel@.contains(x) <==> (base.contains(x) || pre.contains(x)) by {
            if sel@.contains(x) {
                let j = choose|j: int| 0 <= j < sel@.len() && sel@[j] == x;
                if j < base.len() {
                    assert(base[j] == x);
                } else {
                    assert(pre[j - base.len()] == x);
                }
            }
            if base.contains(x) {
                let j = choose|j: int| 0 <= j < base.len() && base[j] == x;
                assert(sel@[j] == x);
            }
            if pre.contains(x) {
                let j = choose|j: int| 0 <= j < pre.len() && pre[j] == x;
                assert(sel@[base.len() + j] == x);
            }
        }
        assert forall|j: int| 0 <= j < sel@.len() implies sel@[j] < keys@.len() by {
            if j < base.len() {
                assert(sel@[j] == base[j]);
            } else {
                assert(sel@[j] == sorted@[j - base.len()]);
            }
        }
        assert forall|a: int, b: int| 0 <= a < b < sel@.len() implies sel@[a] != sel@[b] by {
            if b < base.len() {
                assert(base[a] < base[b]);
            } else if a >= base.len() {
                assert(sel@[a] == sorted@[a - base.len()] && sel@[b] == sorted@[b - base.len()]);
            } else {
                assert(unscored(keys@, base[a] as int));
                assert(sorted@.contains(sel@[b]));
                assert(nums@.contains(sel@[b]));
                let q = choose|q: int| 0 <= q < nums@.len() && nums@[q] == sel@[b];
            }
        }
        assert forall|x: usize| #[trigger] sel@.contains(x) && unscored(keys@, x as int) implies x < k by {
            if pre.contains(x) {
                let j = choose|j: int| 0 <= j < pre.len() && pre[j] == x;
                assert(sorted@.contains(x));
                assert(nums@.contains(x));
                let q = choose|q: int| 0 <= q < nums@.len() && nums@[q] == x;
            } else {
                let j = choose|j: int| 0 <= j < base.len() && base[j] == x;
            }
        }
        assert forall|x: usize, y: usize|
            #![trigger sel@.contains(x), sel@.contains(y)]
            sel@.contains(x) && !unscored(keys@, x as int) && y < keys@.len() && !unscored(keys@, y as int)
                && !sel@.contains(y) implies outranks(keys@, x as int, y as int) by {
            if base.contains(x) {
                let j = choose|j: int| 0 <= j < base.len() && base[j] == x;
            }
            let p = choose|p: int| 0 <= p < pre.len() && pre[p] == x;
            assert(nums@.contains(y));
            assert(sorted@.contains(y));
            let q = choose|q: int| 0 <= q < sorted@.len() && sorted@[q] == y;
            if q < take {
                assert(pre[q] == y);
            }
            assert(sorted@[p] == x);
            assert(before(Order::Rank, keys@, idv, sorted@[p] as int, sorted@[q] as int));
            assert(x != y);
        }
    }
    sel
}

/// The positions of `sel` in hit order.
fn order_hits(keys: &[u32], ids: &Vec<String>, sel: &Vec<usize>) -> (r: Vec<usize>)
    requires
        ids@.len() == keys@.len(),
        sel@.no_duplicates(),
        forall|j: int| 0 <= j < sel@.len() ==> sel@[j] < keys@.len(),
    ensures
        r@.len() == sel@.len(),
        r@.no_duplicates(),
        forall|x: usize| #[trigger] r@.contains(x) <==> sel@.contains(x),
        in_hit_order(keys@, id_views(ids@), r@),
{
    proof {
        assert forall|j: int| 0 <= j < sel@.len() implies #[trigger] sel@[j] < keys@.len() by {}
    }
    let r = sort_positions(Order::Hit, keys, ids, sel, 0, sel.len());
    proof {
        assert(sel@.subrange(0, sel@.len() as int) == sel@);
        lemma_same_members(r@, sel@);
    }
    r
}

/// The positions kept by a top-`k` query (see [`is_top_k`]), in hit order
/// (see [`in_hit_order`]).
pub fn rank_top_k(keys: &[u32], ids: &Vec<String>, k: usize) -> (r: Vec<usize>)
    requires
        0 < k <= keys@.len(),
        ids@.len() == keys@.len(),
    ensures
        is_top_k(keys@, r@, k as int),
        in_hit_order(keys@, id_views(ids@), r@),
{
    let sel = select_top_k(keys, ids, k);
    let r = order_hits(keys, ids, &sel);
    proof {
        assert forall|j: int| 0 <= j < r@.len() implies r@[j] < keys@.len() by {
            assert(r@.contains(r@[j]));
        }
    }
    r
}

/// A duplicate-free sequence drawn from another one, but missing one of its
/// members, is shorter.
proof fn lemma_missing_member_shorter(small: Seq<usize>, big: Seq<usize>, x: usize)
    requires
        small.no_duplicates(),
        big.no_duplicates(),
        big.contains(x),
        !small.contains(x),
        forall|y: usize| small.contains(y) ==> big.contains(y),
    ensures
        small.len() < big.len(),
{
    broadcast use vstd::set::group_set_axioms, vstd::seq_lib::seq_to_set_is_finite;

    small.unique_seq_to_set();
    big.unique_seq_to_set();
    assert(small.to_set().subset_of(big.to_set().remove(x)));
    lemma_len_subset(small.to_set(), big.to_set().remove(x));
}

/// Asking for more results never drops a result: the best `ka` positions
/// are among the best `kb` when `ka <= kb` (for scores that are numbers).
pub proof fn law_top_k_nested(keys: Seq<u32>, a: Seq<usize>, ka: int, b: Seq<usize>, kb: int)
    requires
        forall|i: int| 0 <= i < keys.len() ==> !unscored(keys, i),
        is_top_k(keys, a, ka),
        is_top_k(keys, b, kb),
        ka <= kb,
    ensures
        forall|x: usize| a.contains(x) ==> b.contains(x),
{
    assert forall|x: usize| a.contains(x) implies b.contains(x) by {
        if !b.contains(x) {
            let j = choose|j: int| 0 <= j < a.len() && a[j] == x;
            assert(x < keys.len());
            assert forall|y: usize| b.contains(y) implies a.contains(y) by {
                if !a.contains(y) {
                    let t = choose|t: int| 0 <= t < b.len() && b[t] == y;
                    assert(y < keys.len());
                    assert(outranks(keys, x as int, y as int));
                    assert(outranks(keys, y as int, x as int));
                }
            }
            lemma_missing_member_shorter(b, a, x);
        }
    }
}

/// The best `k` positions are determined by the keys: any two answers for
/// the same keys and `k` hold the same positions.
pub proof fn law_top_k_unique(keys: Seq<u32>, a: Seq<usize>, b: Seq<usize>, k: int)
    requires
        is_top_k(keys, a, k),
        is_top_k(keys, b, k),
    ensures
        forall|x: usize| a.contains(x) <==> b.contains(x),
{
    lemma_top_k_within(keys, a, b, k);
    lemma_top_k_within(keys, b, a, k);
}

proof fn lemma_top_k_within(keys: Seq<u32>, a: Seq<usize>, b: Seq<usize>, k: int)
    requires
        is_top_k(keys, a, k),
        is_top_k(keys, b, k),
    ensures
        forall|x: usize| a.contains(x) ==> b.contains(x),
{
    assert forall|x: usize| a.contains(x) implies b.contains(x) by {
        if !b.contains(x) {
            let j = choose|j: int| 0 <= j < a.len() && a[j] == x;
            assert(x < keys.len());
            if unscored(keys, x as int) {
                assert(x < k);
                assert(b.contains(x));
            }
            assert forall|y: usize| b.contains(y) implies a.contains(y) by {
                let t = choose|t: int| 0 <= t < b.len() && b[t] == y;
                assert(y < keys.len());
                if unscored(keys, y as int) {
                    assert(y < k);
                } else if !a.contains(y) {
                    assert(outranks(keys, x as int, y as int));
                    assert(outranks(keys, y as int, x as int));
                }
            }
            lemma_missing_member_shorter(b, a, x);
        }
    }
}

/// Asking for as many results as there are entries returns every entry.
pub proof fn law_top_all_is_everything(keys: Seq<u32>, a: Seq<usize>)
    requires
        is_top_k(keys, a, keys.len() as int),
        keys.len() <= usize::MAX,
    ensures
        forall|y: usize| y < keys.len() ==> a.contains(y),
{
    assert forall|y: usize| y < keys.len() implies a.contains(y) by {
        if !a.contains(y) {
            let all = Seq::new(keys.len(), |i: int| i as usize);
            assert(all[y as int] == y);
            assert forall|i: int, j: int| 0 <= i < j < all.len() implies all[i] != all[j] by {}
            assert forall|x: usize| a.contains(x) implies all.contains(x) by {
                let j = choose|j: int| 0 <= j < a.len() && a[j] == x;
                assert(all[x as int] == x);
            }
            lemma_missing_member_shorter(a, all, y);
        }
    }
}

/// A duplicate-free sequence drawn from another duplicate-free sequence is
/// no longer.
proof fn lemma_drawn_from_not_longer(small: Seq<usize>, big: Seq<usize>)
    requires
        small.no_duplicates(),
        big.no_duplicates(),
        forall|y: usize| small.contains(y) ==> big.contains(y),
    ensures
        small.len() <= big.len(),
{
    broadcast use vstd::set::group_set_axioms, vstd::seq_lib::seq_to_set_is_finite;

    small.unique_seq_to_set();
    big.unique_seq_to_set();
    assert(small.to_set().subset_of(big.to_set()));
    lemma_len_subset(small.to_set(), big.to_set());
}

/// Two listings in hit order of the same positions, none with a NaN score,
/// agree place by place on key and id: the order of the hits is determined.
pub proof fn law_hit_order_unique(keys: Seq<u32>, ids: Seq<Seq<char>>, p1: Seq<usize>, p2: Seq<usize>, j: int)
    requires
        forall|i: int| 0 <= i < p1.len() ==> !unscored(keys, #[trigger] p1[i] as int),
        p1.no_duplicates(),
        p2.no_duplicates(),
        p1.len() == p2.len(),
        forall|x: usize| p1.contains(x) <==> p2.contains(x),
        forall|i: int| 0 <= i < p1.len() ==> p1[i] < keys.len() && p1[i] < ids.len(),
        in_hit_order(keys, ids, p1),
        in_hit_order(keys, ids, p2),
        0 <= j < p1.len(),
    ensures
        keys[p1[j] as int] == keys[p2[j] as int],
        ids[p1[j] as int] == ids[p2[j] as int],
{
    let a = p1[j] as int;
    let b = p2[j] as int;
    assert(p2.contains(p2[j]));
    assert(p1.contains(p2[j]));
    assert(p2[j] < keys.len() && p2[j] < ids.len());
    lemma_ranks_before_total(keys, ids, a, b);
    assert forall|i: int| 0 <= i < p2.len() implies p2[i] < keys.len() && p2[i] < ids.len() && !unscored(keys, p2[i] as int) by {
        assert(p2.contains(p2[i]));
        assert(p1.contains(p2[i]));
        let t = choose|t: int| 0 <= t < p1.len() && p1[t] == p2[i];
        assert(!unscored(keys, p1[t] as int));
    }
    assert(all_below(p1, keys.len()));
    assert(all_below(p2, keys.len()));
    lemma_hit_order_pairwise(keys, ids, p1);
    lemma_hit_order_pairwise(keys, ids, p2);
    lemma_same_place_ranks_before(keys, ids, p1, p2, j);
    lemma_same_place_ranks_before(keys, ids, p2, p1, j);
    lemma_id_le_antisymmetric(ids[a], ids[b]);
}

/// In two listings in hit order of the same positions, the entry at place
/// `j` of the second ranks no later than the entry at place `j` of the
/// first.
proof fn lemma_same_place_ranks_before(keys: Seq<u32>, ids: Seq<Seq<char>>, p1: Seq<usize>, p2: Seq<usize>, j: int)
    requires
        p1.no_duplicates(),
        p2.no_duplicates(),
        p1.len() == p2.len(),
        forall|x: usize| p1.contains(x) <==> p2.contains(x),
        forall|i: int| 0 <= i < p1.len() ==> p1[i] < keys.len() && p1[i] < ids.len(),
        forall|i: int| 0 <= i < p2.len() ==> p2[i] < keys.len() && p2[i] < ids.len(),
        forall|i: int| 0 <= i < p1.len() ==> !unscored(keys, #[trigger] p1[i] as int),
        forall|i: int| 0 <= i < p2.len() ==> !unscored(keys, #[trigger] p2[i] as int),
        forall|a: int, b: int|
            0 <= a < b < p1.len() ==> #[trigger] ranks_before(keys, ids, p1[a] as int, p1[b] as int),
        forall|a: int, b: int|
            0 <= a < b < p2.len() ==> #[trigger] ranks_before(keys, ids, p2[a] as int, p2[b] as int),
        0 <= j < p1.len(),
    ensures
        ranks_before(keys, ids, p2[j] as int, p1[j] as int),
{
    if ranks_before(keys, ids, p2[j] as int, p1[j] as int) {
        return;
    }
    let head = p1.take(j + 1);
    let front = p2.take(j);
    assert forall|y: usize| head.contains(y) implies front.contains(y) by {
        let i = choose|i: int| 0 <= i < head.len() && head[i] == y;
        assert(p1[i] == y);
        if i < j {
            assert(ranks_before(keys, ids, p1[i] as int, p1[j] as int));
        } else {
            lemma_id_le_total(ids[y as int], ids[y as int]);
        }
        assert(ranks_before(keys, ids, y as int, p1[j] as int));
        assert(p1.contains(y));
        assert(p2.contains(y));
        let t = choose|t: int| 0 <= t < p2.len() && p2[t] == y;
        if t >= j {
            if t > j {
                assert(ranks_before(keys, ids, p2[j] as int, p2[t] as int));
                assert(!unscored(keys, p2[j] as int) && !unscored(keys, p2[t] as int) && !unscored(keys, p1[j] as int));
                lemma_ranks_before_transitive(keys, ids, p2[j] as int, y as int, p1[j] as int);
            }
            assert(false);
        }
        assert(front[t] == y);
    }
    assert forall|a: int, b: int| 0 <= a < b < head.len() implies head[a] != head[b] by {
        assert(p1[a] != p1[b]);
    }
    assert forall|a: int, b: int| 0 <= a < b < front.len() implies front[a] != front[b] by {
        assert(p2[a] != p2[b]);
    }
    lemma_drawn_from_not_longer(head, front);
}

/// What a top-`k` selection keeps, in plain terms: a kept number beats
/// every number left out (a higher key, or an equal key at an earlier
/// position); every NaN among the first `k` positions is kept and none after
/// them; and exactly `k` distinct positions are kept.
pub proof fn law_top_k_keeps_best(keys: Seq<u32>, sel: Seq<usize>, k: int, x: usize, y: usize)
    requires
        is_top_k(keys, sel, k),
    ensures
        sel.contains(x) && keys[x as int] != 0 && y < keys.len() && keys[y as int] != 0 && !sel.contains(y)
            ==> keys[x as int] > keys[y as int] || (keys[x as int] == keys[y as int] && x < y),
        x < k && x < keys.len() && keys[x as int] == 0 ==> sel.contains(x),
        sel.contains(x) && keys[x as int] == 0 ==> x < k,
        sel.len() == k,
        sel.no_duplicates(),
{
}

/// Where no listed score is NaN, hits come by descending key, and equal
/// keys by ascending id, between any two places.
pub proof fn law_hit_order_descending(keys: Seq<u32>, ids: Seq<Seq<char>>, r: Seq<usize>, a: int, b: int)
    requires
        in_hit_order(keys, ids, r),
        all_below(r, keys.len()),
        forall|i: int| 0 <= i < r.len() ==> keys[#[trigger] r[i] as int] != 0,
        0 <= a < b < r.len(),
    ensures
        keys[r[a] as int] > keys[r[b] as int] || (keys[r[a] as int] == keys[r[b] as int] && id_le(
            ids[r[a] as int],
            ids[r[b] as int],
        )),
{
    lemma_hit_order_pairwise(keys, ids, r);
    assert(ranks_before(keys, ids, r[a] as int, r[b] as int));
}

} // verus!
