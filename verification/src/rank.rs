use crate::stopgrams::indices_within;
use vstd::prelude::*;

verus! {

/// The order with `x` put behind every index that weighs at least as much.
pub open spec fn inserted(order: Seq<usize>, rels: Seq<u128>, x: usize) -> Seq<usize>
    decreases order.len(),
{
    if order.len() == 0 {
        seq![x]
    } else if rels[order.last() as int] >= rels[x as int] {
        order.push(x)
    } else {
        inserted(order.drop_last(), rels, x).push(order.last())
    }
}

/// The first `n` indices by falling weight; of two that weigh the same the
/// lower index comes first.
pub open spec fn order_upto(rels: Seq<u128>, n: int) -> Seq<usize>
    decreases n,
{
    if n <= 0 {
        Seq::empty()
    } else {
        inserted(order_upto(rels, n - 1), rels, (n - 1) as usize)
    }
}

/// All indices by falling weight; of two that weigh the same the lower index
/// comes first.
pub open spec fn weight_order(rels: Seq<u128>) -> Seq<usize> {
    order_upto(rels, rels.len() as int)
}

/// Putting an index into an order is an insertion at the place behind the
/// last index that weighs at least as much.
pub proof fn lemma_inserted_at(order: Seq<usize>, rels: Seq<u128>, x: usize, p: int)
    requires
        0 <= p <= order.len(),
        forall|q: int| p <= q < order.len() ==> rels[#[trigger] order[q] as int] < rels[x as int],
        p > 0 ==> rels[order[p - 1] as int] >= rels[x as int],
    ensures
        inserted(order, rels, x) == order.insert(p, x),
    decreases order.len(),
{
    if p < order.len() {
        lemma_inserted_at(order.drop_last(), rels, x, p);
    }
}

/// The indices of the weights, heaviest first; ties keep their order.
pub fn sort_by_weight(rels: &Vec<u128>) -> (order: Vec<usize>)
    ensures
        order@ == weight_order(rels@),
        order.len() == rels.len(),
        indices_within(order@, rels.len() as int),
{
    let mut order: Vec<usize> = Vec::new();
    let mut n: usize = 0;
    while n < rels.len()
        invariant
            n <= rels.len(),
            order.len() == n,
            order@ == order_upto(rels@, n as int),
            indices_within(order@, n as int),
        decreases rels.len() - n,
    {
        let mut p: usize = order.len();
        while p > 0 && rels[order[p - 1]] < rels[n]
            invariant
                p <= order.len(),
                order.len() == n,
                n < rels.len(),
                indices_within(order@, n as int),
                forall|q: int|
                    p <= q < order.len() ==> rels@[#[trigger] order@[q] as int] < rels@[n as int],
            decreases p,
        {
            p -= 1;
        }
        proof {
            lemma_inserted_at(order@, rels@, n, p as int);
        }
        order.insert(p, n);
        n += 1;
    }
    order
}

/// The first index stands before the second: it weighs more, or the same
/// with the lower index.
pub open spec fn goes_before(rels: Seq<u128>, a: usize, b: usize) -> bool {
    rels[a as int] > rels[b as int] || (rels[a as int] == rels[b as int] && a < b)
}

/// Each index of the order stands before those behind it, and all are below
/// `bound`.
pub open spec fn is_ranked(order: Seq<usize>, rels: Seq<u128>, bound: int) -> bool {
    &&& forall|i: int, j: int|
        0 <= i < j < order.len() ==> goes_before(rels, #[trigger] order[i], #[trigger] order[j])
    &&& forall|i: int| 0 <= i < order.len() ==> #[trigger] order[i] < bound
}

/// Putting the next index into a ranked order leaves it ranked.
pub proof fn lemma_inserted_is_ranked(order: Seq<usize>, rels: Seq<u128>, x: usize)
    requires
        is_ranked(order, rels, x as int),
    ensures
        is_ranked(inserted(order, rels, x), rels, x + 1),
        inserted(order, rels, x).len() == order.len() + 1,
        forall|i: int|
            0 <= i < inserted(order, rels, x).len() ==> #[trigger] inserted(order, rels, x)[i] == x
                || order.contains(inserted(order, rels, x)[i]),
    decreases order.len(),
{
    if order.len() > 0 && rels[order.last() as int] < rels[x as int] {
        // the last index is lighter: it stays last, behind all of the rest
        let rest = order.drop_last();
        lemma_inserted_is_ranked(rest, rels, x);
        let r = inserted(rest, rels, x);
        let all = r.push(order.last());
        assert forall|i: int| 0 <= i < r.len() && r[i] != x implies order.contains(
            #[trigger] r[i],
        ) by {
            let q = choose|q: int| 0 <= q < rest.len() && rest[q] == r[i];
            assert(order[q] == r[i]);
        }
        assert forall|i: int, j: int| 0 <= i < j < all.len() implies goes_before(
            rels,
            #[trigger] all[i],
            #[trigger] all[j],
        ) by {
            if j == all.len() - 1 && all[i] != x {
                let q = choose|q: int| 0 <= q < order.len() && order[q] == r[i];
                assert(goes_before(rels, order[q], order[order.len() - 1]));
            }
        }
        assert(order.contains(order[order.len() - 1]));
    } else {
        // no index is lighter: the next one goes last
        let all = order.push(x);
        assert forall|i: int| 0 <= i < order.len() implies order.contains(#[trigger] all[i]) by {
            assert(order[i] == all[i]);
        }
        assert forall|i: int, j: int| 0 <= i < j < all.len() implies goes_before(
            rels,
            #[trigger] all[i],
            #[trigger] all[j],
        ) by {
            if j == all.len() - 1 && i < order.len() - 1 {
                assert(goes_before(rels, order[i], order[order.len() - 1]));
            }
        }
    }
}

/// The order of the first `n` weights has `n` indices, all below `n`, the
/// heavier before the lighter and, of two that weigh the same, the lower
/// index first; so no index comes twice.
pub proof fn lemma_weight_order_is_ranked(rels: Seq<u128>, n: int)
    requires
        0 <= n <= rels.len(),
        n <= usize::MAX,
    ensures
        is_ranked(order_upto(rels, n), rels, n),
        order_upto(rels, n).len() == n,
    decreases n,
{
    if n > 0 {
        lemma_weight_order_is_ranked(rels, n - 1);
        lemma_inserted_is_ranked(order_upto(rels, n - 1), rels, (n - 1) as usize);
    }
}

} // verus!
