//! Stable ordering of items by integer keys.
use vstd::prelude::*;

verus! {

/// Item `i` comes before item `j`: `(keys[i].0, keys[i].1, i)` is lexicographically
/// smaller than `(keys[j].0, keys[j].1, j)`. Ordering by this relation is the
/// stable sort by the key pair.
pub open spec fn key_before(keys: Seq<(i64, i64)>, i: int, j: int) -> bool {
    ||| keys[i].0 < keys[j].0
    ||| (keys[i].0 == keys[j].0 && keys[i].1 < keys[j].1)
    ||| (keys[i].0 == keys[j].0 && keys[i].1 == keys[j].1 && i < j)
}

/// `order` lists the indices `0..keys.len()` stably sorted by key: it has the right
/// length, names only valid indices, and is strictly increasing in `key_before`
/// (which, with the length, makes it a permutation and pins it down).
pub open spec fn is_stable_order(keys: Seq<(i64, i64)>, order: Seq<usize>) -> bool {
    &&& order.len() == keys.len()
    &&& forall|a: int| 0 <= a < order.len() ==> #[trigger] order[a] < keys.len()
    &&& forall|a: int, b: int|
        0 <= a < b < order.len() ==> key_before(keys, #[trigger] order[a] as int, #[trigger] order[b] as int)
}

/// Position at which index `i` is inserted into the sorted list `s`: the first
/// position holding an item that `i` comes before.
pub open spec fn insert_pos(keys: Seq<(i64, i64)>, s: Seq<usize>, i: int, from: int) -> int
    decreases s.len() - from,
{
    if from >= s.len() || from < 0 {
        s.len() as int
    } else if key_before(keys, i, s[from] as int) {
        from
    } else {
        insert_pos(keys, s, i, from + 1)
    }
}

/// Insertion sort of the indices `0..n` by key.
pub open spec fn spec_stable_order(keys: Seq<(i64, i64)>, n: int) -> Seq<usize>
    decreases n,
{
    if n <= 0 {
        Seq::empty()
    } else {
        let s = spec_stable_order(keys, n - 1);
        s.insert(insert_pos(keys, s, n - 1, 0), (n - 1) as usize)
    }
}

fn before(keys: &Vec<(i64, i64)>, i: usize, j: usize) -> (r: bool)
    requires
        i < keys@.len(),
        j < keys@.len(),
    ensures
        r == key_before(keys@, i as int, j as int),
{
    let (a0, a1) = keys[i];
    let (b0, b1) = keys[j];
    a0 < b0 || (a0 == b0 && a1 < b1) || (a0 == b0 && a1 == b1 && i < j)
}

/// The indices of `keys` in stable sorted order of their keys (insertion sort).
pub fn stable_order(keys: &Vec<(i64, i64)>) -> (order: Vec<usize>)
    ensures
        is_stable_order(keys@, order@),
        order@ == spec_stable_order(keys@, keys@.len() as int),
{
    let n = keys.len();
    let mut order: Vec<usize> = Vec::new();
    let mut i: usize = 0;
    while i < n
        invariant
            n == keys@.len(),
            i <= n,
            order@.len() == i,
            forall|a: int| 0 <= a < order@.len() ==> #[trigger] order@[a] < i,
            forall|a: int, b: int|
                0 <= a < b < order@.len() ==> key_before(
                    keys@,
                    #[trigger] order@[a] as int,
                    #[trigger] order@[b] as int,
                ),
            order@ == spec_stable_order(keys@, i as int),
        decreases n - i,
    {
        let mut p: usize = 0;
        while p < order.len() && !before(keys, i, order[p])
            invariant
                n == keys@.len(),
                i < n,
                p <= order@.len(),
                forall|a: int| 0 <= a < order@.len() ==> #[trigger] order@[a] < i,
                forall|a: int| 0 <= a < p ==> !key_before(keys@, i as int, #[trigger] order@[a] as int),
                insert_pos(keys@, order@, i as int, p as int) == insert_pos(keys@, order@, i as int, 0),
            decreases order@.len() - p,
        {
            p = p + 1;
        }
        assert(insert_pos(keys@, order@, i as int, p as int) == p);
        let ghost old_order = order@;
        order.insert(p, i);
        assert forall|a: int, b: int| 0 <= a < b < order@.len() implies key_before(
            keys@,
            #[trigger] order@[a] as int,
            #[trigger] order@[b] as int,
        ) by {
            if b < p {
                assert(order@[a] == old_order[a] && order@[b] == old_order[b]);
            } else if b == p {
                assert(order@[a] == old_order[a]);
                assert(!key_before(keys@, i as int, old_order[a] as int));
            } else if a < p {
                assert(order@[a] == old_order[a] && order@[b] == old_order[b - 1]);
            } else if a == p {
                assert(order@[b] == old_order[b - 1]);
                assert(key_before(keys@, i as int, old_order[p as int] as int));
                if b - 1 > p {
                    assert(key_before(keys@, old_order[p as int] as int, old_order[b - 1] as int));
                }
            } else {
                assert(order@[a] == old_order[a - 1] && order@[b] == old_order[b - 1]);
            }
        }
        i = i + 1;
    }
    order
}

} // verus!
