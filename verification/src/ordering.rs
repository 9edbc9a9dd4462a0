//! Stable ordering of items by an integer key.

use vstd::prelude::*;

verus! {

/// `order` lists the index `k` somewhere.
pub open spec fn lists(order: Seq<usize>, k: int) -> bool {
    exists|i: int| 0 <= i < order.len() && #[trigger] order[i] == k
}

/// `order` lists each index below `count` exactly once.
pub open spec fn is_permutation(order: Seq<usize>, count: nat) -> bool {
    &&& order.len() == count
    &&& forall|i: int| 0 <= i < count ==> (#[trigger] order[i]) < count
    &&& forall|i: int, j: int| 0 <= i < j < count ==> order[i] != order[j]
    &&& forall|k: int| 0 <= k < count ==> #[trigger] lists(order, k)
}

/// The item at index `first` comes before the one at index `second`: its
/// key is smaller, or the keys are equal and it stands earlier.
pub open spec fn precedes(keys: Seq<u128>, first: int, second: int) -> bool {
    keys[first] < keys[second] || (keys[first] == keys[second] && first < second)
}

/// `order` lists the indices of `keys` by ascending key, equal keys in
/// the order in which they stand.
pub open spec fn is_stable_order(order: Seq<usize>, keys: Seq<u128>) -> bool {
    &&& is_permutation(order, keys.len())
    &&& forall|i: int, j: int|
        0 <= i < j < order.len() ==> precedes(keys, #[trigger] order[i] as int, #[trigger] order[j] as int)
}

/// The indices of `keys` by ascending key, equal keys in the order in which
/// they stand.
pub fn stable_order(keys: &Vec<u128>) -> (order: Vec<usize>)
    ensures
        is_stable_order(order@, keys@),
{
    let mut order: Vec<usize> = Vec::new();
    let ghost mut places: Seq<int> = Seq::empty();
    let mut next: usize = 0;
    while next < keys.len()
        invariant
            next <= keys@.len(),
            order@.len() == next,
            places.len() == next,
            forall|i: int| 0 <= i < next ==> (#[trigger] order@[i]) < next,
            forall|i: int, j: int|
                0 <= i < j < next ==> precedes(
                    keys@,
                    #[trigger] order@[i] as int,
                    #[trigger] order@[j] as int,
                ),
            forall|k: int|
                0 <= k < next ==> 0 <= (#[trigger] places[k]) < next && order@[places[k]] == k,
        decreases keys@.len() - next,
    {
        let key: u128 = keys[next];
        let mut slot: usize = order.len();
        while slot > 0 && keys[order[slot - 1]] > key
            invariant
                slot <= order@.len(),
                order@.len() == next,
                next < keys@.len(),
                key == keys@[next as int],
                forall|i: int| 0 <= i < next ==> (#[trigger] order@[i]) < next,
                forall|i: int| slot <= i < next ==> keys@[(#[trigger] order@[i]) as int] > key,
            decreases slot,
        {
            slot = slot - 1;
        }
        let ghost before = order@;
        let ghost old_places = places;
        order.insert(slot, next);
        proof {
            places = Seq::new(
                next as nat + 1,
                |k: int|
                    if k == next {
                        slot as int
                    } else if old_places[k] >= slot {
                        old_places[k] + 1
                    } else {
                        old_places[k]
                    },
            );
            assert forall|i: int| 0 <= i < next + 1 implies (#[trigger] order@[i]) < next + 1 by {
                if i < slot {
                    assert(order@[i] == before[i]);
                } else if i > slot {
                    assert(order@[i] == before[i - 1]);
                }
            }
            assert forall|i: int, j: int| 0 <= i < j < next + 1 implies precedes(
                keys@,
                #[trigger] order@[i] as int,
                #[trigger] order@[j] as int,
            ) by {
                if j < slot {
                    assert(order@[i] == before[i] && order@[j] == before[j]);
                } else if j == slot {
                    assert(order@[i] == before[i]);
                    if slot > 0 {
                        assert(keys@[before[slot - 1] as int] <= key);
                        if i < slot - 1 {
                            assert(precedes(keys@, before[i] as int, before[slot - 1] as int));
                        }
                    }
                } else if i < slot {
                    assert(order@[i] == before[i] && order@[j] == before[j - 1]);
                } else if i == slot {
                    assert(order@[j] == before[j - 1]);
                } else {
                    assert(order@[i] == before[i - 1] && order@[j] == before[j - 1]);
                }
            }
            assert forall|k: int| 0 <= k < next + 1 implies 0 <= (#[trigger] places[k]) < next + 1
                && order@[places[k]] == k by {
                if k < next {
                    let was = old_places[k];
                    assert(before[was] == k);
                    if was >= slot {
                        assert(order@[was + 1] == before[was]);
                    } else {
                        assert(order@[was] == before[was]);
                    }
                }
            }
        }
        next = next + 1;
    }
    proof {
        assert forall|i: int, j: int| 0 <= i < j < order@.len() implies order@[i] != order@[j] by {
            assert(precedes(keys@, order@[i] as int, order@[j] as int));
            assert(precedes(keys@, order@[j] as int, order@[i] as int) ==> false);
        }
        assert forall|k: int| 0 <= k < keys@.len() implies #[trigger] lists(order@, k) by {
            assert(order@[places[k]] == k);
        }
    }
    order
}

/// The items of `source` in the order that `order` lists their indices.
pub open spec fn arranged<T>(source: Seq<T>, order: Seq<usize>) -> Seq<T> {
    Seq::new(order.len(), |i: int| source[order[i] as int])
}

/// `order` lists the indices of `weights` by descending weight, equal
/// weights in the order in which they stand.
pub open spec fn is_descending_order(order: Seq<usize>, weights: Seq<u128>) -> bool {
    &&& is_permutation(order, weights.len())
    &&& forall|i: int, j: int|
        0 <= i < j < order.len() ==> {
            let first = #[trigger] order[i] as int;
            let second = #[trigger] order[j] as int;
            weights[first] > weights[second] || (weights[first] == weights[second] && first
                < second)
        }
}

/// The indices of `weights` by descending weight, equal weights in the
/// order in which they stand.
pub fn descending_order(weights: &Vec<u128>) -> (order: Vec<usize>)
    ensures
        is_descending_order(order@, weights@),
{
    let mut keys: Vec<u128> = Vec::new();
    let mut i: usize = 0;
    while i < weights.len()
        invariant
            i <= weights@.len(),
            keys@.len() == i,
            forall|j: int| 0 <= j < i ==> (#[trigger] keys@[j]) == u128::MAX - weights@[j],
        decreases weights@.len() - i,
    {
        keys.push(u128::MAX - weights[i]);
        i = i + 1;
    }
    let order = stable_order(&keys);
    proof {
        assert forall|i: int, j: int| 0 <= i < j < order@.len() implies {
            let first = #[trigger] order@[i] as int;
            let second = #[trigger] order@[j] as int;
            weights@[first] > weights@[second] || (weights@[first] == weights@[second] && first
                < second)
        } by {
            assert(precedes(keys@, order@[i] as int, order@[j] as int));
        }
    }
    order
}

} // verus!
