//! The order in which the rules of a standard are placed in the tree: by the
//! number of their path segments, rules of equal length in their own order.

use vstd::prelude::*;

verus! {

/// Whether item `a` comes before item `b`: it has the smaller key, or the
/// same key and the smaller index.
pub open spec fn precedes(keys: Seq<usize>, a: usize, b: usize) -> bool {
    keys[a as int] < keys[b as int] || (keys[a as int] == keys[b as int] && a < b)
}

/// Whether `order` lists item `x`.
pub open spec fn lists(order: Seq<usize>, x: int) -> bool {
    exists|k: int| 0 <= k < order.len() && #[trigger] order[k] == x
}

/// Whether `order` lists each of the first `limit` items once, every one
/// before the next.
pub open spec fn is_ordered(order: Seq<usize>, keys: Seq<usize>, limit: int) -> bool {
    &&& order.len() == limit
    &&& forall|k: int| 0 <= k < order.len() ==> (#[trigger] order[k]) < limit
    &&& forall|x: int| 0 <= x < limit ==> #[trigger] lists(order, x)
    &&& forall|k1: int, k2: int|
        0 <= k1 < k2 < order.len() ==> precedes(keys, #[trigger] order[k1], #[trigger] order[k2])
}

/// Whether `order` lists the indices of all keys, sorted by key, and indices
/// of equal keys in rising order.
pub open spec fn is_stable_order(order: Seq<usize>, keys: Seq<usize>) -> bool {
    is_ordered(order, keys, keys.len() as int)
}

/// No index is listed twice in a stable order.
pub proof fn lemma_order_distinct(order: Seq<usize>, keys: Seq<usize>, k1: int, k2: int)
    requires
        is_stable_order(order, keys),
        0 <= k1 < order.len(),
        0 <= k2 < order.len(),
        order[k1] == order[k2],
    ensures
        k1 == k2,
{
    if k1 < k2 {
        assert(precedes(keys, order[k1], order[k2]));
    } else if k2 < k1 {
        assert(precedes(keys, order[k2], order[k1]));
    }
}

/// The indices of the keys, sorted by key; indices of equal keys keep their
/// order.
pub fn order_by_key(keys: &Vec<usize>) -> (order: Vec<usize>)
    ensures
        is_stable_order(order@, keys@),
{
    let mut order: Vec<usize> = Vec::new();
    let mut i: usize = 0;
    while i < keys.len()
        invariant
            i <= keys.len(),
            is_ordered(order@, keys@, i as int),
        decreases keys.len() - i,
    {
        let key = keys[i];
        let mut p: usize = order.len();
        while p > 0 && keys[order[p - 1]] > key
            invariant
                i < keys.len(),
                key == keys@[i as int],
                p <= order.len(),
                is_ordered(order@, keys@, i as int),
                forall|q: int| p <= q < order.len() ==> keys@[(#[trigger] order@[q]) as int] > key,
            decreases p,
        {
            p = p - 1;
        }
        let ghost before = order@;
        order.insert(p, i);
        proof {
            let now = order@;
            assert forall|k: int| 0 <= k < now.len() implies (#[trigger] now[k]) < i + 1 by {
                if k < p {
                    assert(now[k] == before[k]);
                } else if k > p {
                    assert(now[k] == before[k - 1]);
                }
            }
            assert forall|x: int| 0 <= x < i + 1 implies #[trigger] lists(now, x) by {
                if x < i {
                    assert(lists(before, x));
                    let k0 = choose|k: int| 0 <= k < before.len() && #[trigger] before[k] == x;
                    if k0 < p {
                        assert(now[k0] == x);
                    } else {
                        assert(now[k0 + 1] == x);
                    }
                } else {
                    assert(now[p as int] == x);
                }
            }
            assert forall|q: int| 0 <= q < p implies keys@[(#[trigger] before[q]) as int]
                <= key by {
                if q < p - 1 {
                    assert(precedes(keys@, before[q], before[p - 1]));
                }
            }
            assert forall|k1: int, k2: int| 0 <= k1 < k2 < now.len() implies precedes(
                keys@,
                #[trigger] now[k1],
                #[trigger] now[k2],
            ) by {
                if k2 < p {
                    assert(now[k1] == before[k1] && now[k2] == before[k2]);
                } else if k2 == p {
                    assert(now[k1] == before[k1]);
                } else if k1 < p {
                    assert(now[k1] == before[k1] && now[k2] == before[k2 - 1]);
                } else if k1 == p {
                    assert(now[k2] == before[k2 - 1]);
                } else {
                    assert(now[k1] == before[k1 - 1] && now[k2] == before[k2 - 1]);
                }
            }
        }
        i = i + 1;
    }
    order
}

} // verus!
