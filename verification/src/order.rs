//! Stable ordering: the order in which items stand once they are sorted by a
//! key, those with equal keys as before.
use vstd::prelude::*;

verus! {

/// Where an item with key `key` belongs among the items of `order`: behind the
/// last one whose key is not larger.
pub open spec fn place_for(order: Seq<int>, keys: Seq<int>, key: int) -> int
    decreases order.len(),
{
    if order.len() == 0 {
        0
    } else if keys[order.last()] <= key {
        order.len() as int
    } else {
        place_for(order.drop_last(), keys, key)
    }
}

/// The indices of the keys in ascending order of the keys, equal ones in
/// ascending order of the indices.
pub open spec fn ascending(keys: Seq<int>) -> Seq<int>
    decreases keys.len(),
{
    if keys.len() == 0 {
        Seq::empty()
    } else {
        let before = ascending(keys.drop_last());
        before.insert(place_for(before, keys, keys.last()), keys.len() - 1)
    }
}

/// The items in an order.
pub open spec fn arranged<T>(items: Seq<T>, order: Seq<int>) -> Seq<T> {
    order.map_values(|i: int| items[i])
}

/// One index stands before another where its key is smaller, or the keys are
/// equal and it is smaller itself.
pub open spec fn ranks_before(keys: Seq<int>, i: int, j: int) -> bool {
    keys[i] < keys[j] || (keys[i] == keys[j] && i < j)
}

proof fn lemma_place_for(order: Seq<int>, keys: Seq<int>, key: int)
    requires
        forall|a: int, b: int|
            0 <= a < b < order.len() ==> keys[#[trigger] order[a]] <= keys[#[trigger] order[b]],
    ensures
        0 <= place_for(order, keys, key) <= order.len(),
        forall|a: int|
            0 <= a < place_for(order, keys, key) ==> keys[#[trigger] order[a]] <= key,
        forall|a: int|
            place_for(order, keys, key) <= a < order.len() ==> keys[#[trigger] order[a]] > key,
    decreases order.len(),
{
    if order.len() > 0 {
        let rest = order.drop_last();
        assert forall|a: int, b: int| 0 <= a < b < rest.len() implies keys[#[trigger] rest[a]]
            <= keys[#[trigger] rest[b]] by {
            assert(rest[a] == order[a] && rest[b] == order[b]);
        }
        lemma_place_for(rest, keys, key);
        let n = order.len() - 1;
        if keys[order.last()] <= key {
            assert forall|a: int| 0 <= a < order.len() implies keys[#[trigger] order[a]] <= key by {
                if a < n {
                    assert(keys[order[a]] <= keys[order[n]]);
                }
            }
        } else {
            assert forall|a: int|
                0 <= a < place_for(order, keys, key) implies keys[#[trigger] order[a]] <= key by {
                assert(rest[a] == order[a]);
            }
            assert forall|a: int|
                place_for(order, keys, key) <= a < order.len() implies keys[#[trigger] order[a]]
                > key by {
                if a < n {
                    assert(rest[a] == order[a]);
                }
            }
        }
    }
}

/// The ascending order holds every index exactly once, has the keys ascend, and
/// is stable.
pub proof fn law_ascending(keys: Seq<int>)
    ensures
        ascending(keys).len() == keys.len(),
        forall|a: int| 0 <= a < keys.len() ==> 0 <= #[trigger] ascending(keys)[a] < keys.len(),
        forall|i: int| 0 <= i < keys.len() ==> #[trigger] ascending(keys).contains(i),
        forall|a: int, b: int|
            0 <= a < b < keys.len() ==> ranks_before(
                keys,
                #[trigger] ascending(keys)[a],
                #[trigger] ascending(keys)[b],
            ),
    decreases keys.len(),
{
    if keys.len() > 0 {
        let short = keys.drop_last();
        let before = ascending(short);
        law_ascending(short);
        let n = keys.len() - 1;
        assert forall|a: int, b: int| 0 <= a < b < before.len() implies keys[#[trigger] before[a]]
            <= keys[#[trigger] before[b]] by {
            assert(ranks_before(short, before[a], before[b]));
        }
        lemma_place_for(before, keys, keys.last());
        let at = place_for(before, keys, keys.last());
        let order = ascending(keys);
        assert(order == before.insert(at, n));
        assert forall|a: int| 0 <= a < keys.len() implies 0 <= #[trigger] order[a] < keys.len() by {
            if a < at {
                assert(order[a] == before[a]);
            } else if a > at {
                assert(order[a] == before[a - 1]);
            }
        }
        assert forall|i: int| 0 <= i < keys.len() implies #[trigger] order.contains(i) by {
            if i == n {
                assert(order[at] == n);
            } else {
                assert(before.contains(i));
                let a = choose|a: int| 0 <= a < before.len() && before[a] == i;
                if a < at {
                    assert(order[a] == i);
                } else {
                    assert(order[a + 1] == i);
                }
            }
        }
        assert forall|a: int, b: int| 0 <= a < b < keys.len() implies ranks_before(
            keys,
            #[trigger] order[a],
            #[trigger] order[b],
        ) by {
            let x = if a < at { before[a] } else { before[a - 1] };
            let y = if b < at { before[b] } else { before[b - 1] };
            if a == at {
                assert(order[b] == before[b - 1]);
            } else if b == at {
                assert(order[a] == before[a]);
            } else {
                assert(order[a] == x && order[b] == y);
                assert(ranks_before(short, x, y));
            }
        }
    }
}

/// The integers of a list.
pub open spec fn key_values(keys: Seq<u64>) -> Seq<int> {
    keys.map_values(|k: u64| k as int)
}

/// The indices of a list.
pub open spec fn index_values(order: Seq<usize>) -> Seq<int> {
    order.map_values(|i: usize| i as int)
}

/// The stable ascending order of some keys.
pub fn ascending_order(keys: &Vec<u64>) -> (order: Vec<usize>)
    ensures
        index_values(order@) == ascending(key_values(keys@)),
        order@.len() == keys@.len(),
        forall|a: int| 0 <= a < order@.len() ==> (#[trigger] order@[a]) < keys@.len(),
{
    let mut order: Vec<usize> = Vec::new();
    let mut n: usize = 0;
    let ghost all = key_values(keys@);
    while n < keys.len()
        invariant
            n <= keys@.len(),
            all == key_values(keys@),
            index_values(order@) == ascending(all.take(n as int)),
            order@.len() == n,
        decreases keys@.len() - n,
    {
        let ghost part = all.take(n as int);
        let ghost so_far = index_values(order@);
        let key = keys[n];
        let mut at: usize = order.len();
        proof {
            law_ascending(part);
            assert(all.take(n + 1).drop_last() =~= part);
            assert(so_far.take(at as int) =~= so_far);
        }
        while at > 0 && keys[order[at - 1]] > key
            invariant
                at <= order@.len(),
                all == key_values(keys@),
                so_far == index_values(order@),
                part == all.take(n as int),
                n < keys@.len(),
                key == keys@[n as int],
                forall|a: int| 0 <= a < order@.len() ==> (#[trigger] so_far[a]) < n,
                place_for(so_far, all.take(n + 1), key as int) == place_for(
                    so_far.take(at as int),
                    all.take(n + 1),
                    key as int,
                ),
            decreases at,
        {
            assert(so_far.take(at as int).drop_last() =~= so_far.take(at - 1));
            assert(so_far.take(at as int).last() == order@[at - 1]);
            assert(so_far[at - 1] < n);
            at -= 1;
        }
        proof {
            if at > 0 {
                assert(so_far.take(at as int).last() == order@[at - 1]);
                assert(so_far[at - 1] < n);
            }
            assert(place_for(so_far, all.take(n + 1), key as int) == at);
        }
        order.insert(at, n);
        assert(index_values(order@) =~= so_far.insert(at as int, n as int));
        n += 1;
    }
    proof {
        assert(all.take(n as int) =~= all);
        law_ascending(all);
        assert forall|a: int| 0 <= a < order@.len() implies (#[trigger] order@[a]) < keys@.len() by {
            assert(index_values(order@)[a] == order@[a]);
        }
    }
    order
}

/// Where the keys fall from each to the next, the order turns them round.
pub proof fn law_falling_keys(keys: Seq<int>)
    requires
        forall|i: int, j: int| 0 <= i < j < keys.len() ==> (#[trigger] keys[i]) > (#[trigger] keys[j]),
    ensures
        ascending(keys) == Seq::new(keys.len(), |a: int| keys.len() - 1 - a),
    decreases keys.len(),
{
    let turned = Seq::new(keys.len(), |a: int| keys.len() - 1 - a);
    if keys.len() == 0 {
        assert(ascending(keys) =~= turned);
    } else {
        let short = keys.drop_last();
        let n = keys.len() - 1;
        assert forall|i: int, j: int| 0 <= i < j < short.len() implies (#[trigger] short[i]) > (
        #[trigger] short[j]) by {
            assert(short[i] == keys[i] && short[j] == keys[j]);
        }
        law_falling_keys(short);
        let before = ascending(short);
        assert forall|a: int| 0 <= a < before.len() implies keys[#[trigger] before[a]]
            > keys.last() by {
            assert(before[a] == n - 1 - a);
            assert(keys[before[a]] > keys[n]);
        }
        lemma_place_in_front(before, keys, keys.last());
        assert(before.insert(0, n) =~= turned);
    }
}

proof fn lemma_place_in_front(order: Seq<int>, keys: Seq<int>, key: int)
    requires
        forall|a: int| 0 <= a < order.len() ==> keys[#[trigger] order[a]] > key,
    ensures
        place_for(order, keys, key) == 0,
    decreases order.len(),
{
    if order.len() > 0 {
        let rest = order.drop_last();
        assert(keys[order[order.len() - 1]] > key);
        assert forall|a: int| 0 <= a < rest.len() implies keys[#[trigger] rest[a]] > key by {
            assert(rest[a] == order[a]);
        }
        lemma_place_in_front(rest, keys, key);
    }
}

} // verus!
