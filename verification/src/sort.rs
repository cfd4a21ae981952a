//! Stable sorting of siblings.

use crate::arena::{arena_node, arena_slots, Slot};
use crate::context::{Direction, SortKey};
use crate::node::Node;
use crate::order::{
    lemma_precedes_asymmetric, lemma_precedes_between, node_precedes, precedes,
};
use indextree::{Arena, NodeId};
use vstd::prelude::*;

verus! {

/// Where the position `x` goes among the positions in `order`, which are already
/// in order: behind every position whose node does not come after that of `x`.
pub open spec fn place(
    order: Seq<int>,
    keys: Seq<Node>,
    x: int,
    key: SortKey,
    direction: Direction,
) -> Seq<int>
    decreases order.len(),
{
    if order.len() == 0 || !precedes(key, direction, keys[x], keys[order.last()]) {
        order.push(x)
    } else {
        place(order.drop_last(), keys, x, key, direction).push(order.last())
    }
}

/// The positions of the first `n` nodes of `keys`, in sorted order: each position
/// is placed in turn behind those that came earlier and do not sort after it.
pub open spec fn sort_prefix(keys: Seq<Node>, n: nat, key: SortKey, direction: Direction) -> Seq<
    int,
>
    decreases n,
{
    if n == 0 {
        Seq::empty()
    } else {
        place(sort_prefix(keys, (n - 1) as nat, key, direction), keys, n - 1, key, direction)
    }
}

/// The order in which the nodes of `keys` stand after a stable sort: the positions
/// `0..keys.len()`, rearranged. Without a key the nodes stay where they are.
pub open spec fn sort_order(keys: Seq<Node>, key: Option<SortKey>, direction: Direction) -> Seq<
    int,
> {
    match key {
        Some(key) => sort_prefix(keys, keys.len(), key, direction),
        None => Seq::new(keys.len(), |i: int| i),
    }
}

/// The items of `items`, taken in the order of the positions in `order`.
pub open spec fn arrange<T>(items: Seq<T>, order: Seq<int>) -> Seq<T> {
    Seq::new(order.len(), |k: int| items[order[k]])
}

/// The nodes that the arena stores under the handles in `ids`.
pub open spec fn nodes_of(slots: Map<NodeId, Slot>, ids: Seq<NodeId>) -> Seq<Node> {
    Seq::new(ids.len(), |i: int| slots[ids[i]].data)
}

/// Placing `x` puts it at index `at`, if every position from `at` on sorts after
/// `x` and the one before `at` does not.
proof fn lemma_place_at(
    order: Seq<int>,
    keys: Seq<Node>,
    x: int,
    key: SortKey,
    direction: Direction,
    at: int,
)
    requires
        0 <= at <= order.len(),
        forall|k: int|
            at <= k < order.len() ==> precedes(key, direction, keys[x], keys[#[trigger] order[k]]),
        at == 0 || !precedes(key, direction, keys[x], keys[order[at - 1]]),
    ensures
        place(order, keys, x, key, direction) == order.insert(at, x),
    decreases order.len(),
{
    if at == order.len() {
        assert(order.push(x) == order.insert(at, x));
    } else {
        let last = order.last();
        assert(last == order[order.len() - 1]);
        lemma_place_at(order.drop_last(), keys, x, key, direction, at);
        assert(order.drop_last().insert(at, x).push(last) == order.insert(at, x));
    }
}

/// Whether `order` holds each of the positions `0..n` once.
pub open spec fn is_permutation(order: Seq<int>, n: nat) -> bool {
    &&& order.len() == n
    &&& forall|k: int| 0 <= k < order.len() ==> 0 <= #[trigger] order[k] < n
    &&& order.no_duplicates()
    &&& forall|i: int| 0 <= i < n ==> #[trigger] order.contains(i)
}

/// Placing a position puts it somewhere among the others and leaves them in
/// their order.
pub proof fn lemma_place_somewhere(
    order: Seq<int>,
    keys: Seq<Node>,
    x: int,
    key: SortKey,
    direction: Direction,
) -> (at: int)
    ensures
        0 <= at <= order.len(),
        place(order, keys, x, key, direction) == order.insert(at, x),
        forall|k: int|
            at <= k < order.len() ==> precedes(key, direction, keys[x], keys[#[trigger] order[k]]),
        at == 0 || !precedes(key, direction, keys[x], keys[order[at - 1]]),
    decreases order.len(),
{
    if order.len() == 0 || !precedes(key, direction, keys[x], keys[order.last()]) {
        assert(order.push(x) == order.insert(order.len() as int, x));
        order.len() as int
    } else {
        let at = lemma_place_somewhere(order.drop_last(), keys, x, key, direction);
        assert(order.drop_last().insert(at, x).push(order.last()) == order.insert(at, x));
        assert forall|k: int| at <= k < order.len() implies precedes(
            key,
            direction,
            keys[x],
            keys[#[trigger] order[k]],
        ) by {
            if k < order.len() - 1 {
                assert(order.drop_last()[k] == order[k]);
            }
        }
        if at > 0 {
            assert(order.drop_last()[at - 1] == order[at - 1]);
        }
        at
    }
}

/// The sorted order of the first `n` positions holds each of them once.
pub proof fn lemma_sort_prefix_permutation(
    keys: Seq<Node>,
    n: nat,
    key: SortKey,
    direction: Direction,
)
    ensures
        is_permutation(sort_prefix(keys, n, key, direction), n),
    decreases n,
{
    if n > 0 {
        let before = sort_prefix(keys, (n - 1) as nat, key, direction);
        lemma_sort_prefix_permutation(keys, (n - 1) as nat, key, direction);
        let at = lemma_place_somewhere(before, keys, n - 1, key, direction);
        let after = before.insert(at, n - 1);
        assert forall|k: int| 0 <= k < after.len() implies 0 <= #[trigger] after[k] < n by {
            if k < at {
                assert(after[k] == before[k]);
            } else if k > at {
                assert(after[k] == before[k - 1]);
            }
        }
        assert forall|i: int, j: int|
            0 <= i < after.len() && 0 <= j < after.len() && i != j implies after[i]
            != after[j] by {
            let a = if i < at {
                before[i]
            } else if i > at {
                before[i - 1]
            } else {
                n - 1
            };
            let b = if j < at {
                before[j]
            } else if j > at {
                before[j - 1]
            } else {
                n - 1
            };
            assert(after[i] == a);
            assert(after[j] == b);
        }
        assert forall|i: int| 0 <= i < n implies #[trigger] after.contains(i) by {
            if i == n - 1 {
                assert(after[at] == i);
            } else {
                assert(before.contains(i));
                let k = choose|k: int| 0 <= k < before.len() && before[k] == i;
                if k < at {
                    assert(after[k] == i);
                } else {
                    assert(after[k + 1] == i);
                }
            }
        }
    }
}

/// A sort rearranges: its order holds each position once.
pub proof fn lemma_sort_order_permutation(
    keys: Seq<Node>,
    key: Option<SortKey>,
    direction: Direction,
)
    ensures
        is_permutation(sort_order(keys, key, direction), keys.len()),
{
    match key {
        Some(key) => lemma_sort_prefix_permutation(keys, keys.len(), key, direction),
        None => {
            let order = sort_order(keys, None, direction);
            assert forall|i: int| 0 <= i < keys.len() implies #[trigger] order.contains(i) by {
                assert(order[i] == i);
            }
        },
    }
}

/// Sorts the handles in `children` by the nodes that the arena stores under them.
/// The sort is stable: of two nodes that are equal under the key, the one that
/// stood first still stands first.
pub fn sort_children(
    arena: &Arena<Node>,
    children: Vec<NodeId>,
    key: SortKey,
    direction: Direction,
) -> (sorted: Vec<NodeId>)
    requires
        forall|i: int|
            0 <= i < children@.len() ==> arena_slots(*arena).dom().contains(
                #[trigger] children@[i],
            ),
    ensures
        sorted@ == arrange(
            children@,
            sort_order(nodes_of(arena_slots(*arena), children@), Some(key), direction),
        ),
{
    let ghost keys = nodes_of(arena_slots(*arena), children@);
    let ghost mut order: Seq<int> = Seq::empty();
    let mut sorted: Vec<NodeId> = Vec::new();
    let mut i: usize = 0;
    while i < children.len()
        invariant
            i <= children.len(),
            keys == nodes_of(arena_slots(*arena), children@),
            order == sort_prefix(keys, i as nat, key, direction),
            order.len() == i,
            forall|k: int| 0 <= k < order.len() ==> 0 <= #[trigger] order[k] < i,
            sorted@ == arrange(children@, order),
            forall|i: int|
                0 <= i < children@.len() ==> arena_slots(*arena).dom().contains(
                    #[trigger] children@[i],
                ),
        decreases children.len() - i,
    {
        let child = children[i];
        // the place is found by halving: what stands before `low` does not sort
        // after the child, what stands from `high` on does
        let mut low: usize = 0;
        let mut high: usize = sorted.len();
        while low < high
            invariant
                low <= high <= sorted.len(),
                i < children.len(),
                child == children@[i as int],
                keys == nodes_of(arena_slots(*arena), children@),
                order == sort_prefix(keys, i as nat, key, direction),
                order.len() == i,
                forall|k: int| 0 <= k < order.len() ==> 0 <= #[trigger] order[k] < i,
                sorted@ == arrange(children@, order),
                forall|i: int|
                    0 <= i < children@.len() ==> arena_slots(*arena).dom().contains(
                        #[trigger] children@[i],
                    ),
                forall|k: int|
                    high <= k < order.len() ==> precedes(
                        key,
                        direction,
                        keys[i as int],
                        keys[#[trigger] order[k]],
                    ),
                forall|k: int|
                    0 <= k < low ==> !precedes(
                        key,
                        direction,
                        keys[i as int],
                        keys[#[trigger] order[k]],
                    ),
            decreases high - low,
        {
            let mid = low + (high - low) / 2;
            let other = sorted[mid];
            assert(other == children@[order[mid as int]]);
            if node_precedes(key, direction, arena_node(arena, child), arena_node(arena, other)) {
                proof {
                    assert forall|k: int| mid <= k < order.len() implies precedes(
                        key,
                        direction,
                        keys[i as int],
                        keys[#[trigger] order[k]],
                    ) by {
                        if mid < k {
                            lemma_sort_prefix_sorted(keys, i as nat, key, direction, mid as int, k);
                            lemma_precedes_between(
                                key,
                                direction,
                                keys[order[mid as int]],
                                keys[order[k]],
                                keys[i as int],
                            );
                        }
                    }
                }
                high = mid;
            } else {
                proof {
                    assert forall|k: int| 0 <= k < mid + 1 implies !precedes(
                        key,
                        direction,
                        keys[i as int],
                        keys[#[trigger] order[k]],
                    ) by {
                        if k < mid && precedes(key, direction, keys[i as int], keys[order[k]]) {
                            lemma_sort_prefix_sorted(keys, i as nat, key, direction, k, mid as int);
                            lemma_precedes_between(
                                key,
                                direction,
                                keys[order[k]],
                                keys[order[mid as int]],
                                keys[i as int],
                            );
                        }
                    }
                }
                low = mid + 1;
            }
        }
        let at = low;
        sorted.insert(at, child);
        proof {
            lemma_place_at(order, keys, i as int, key, direction, at as int);
            order = order.insert(at as int, i as int);
            assert(sorted@ =~= arrange(children@, order));
        }
        i = i + 1;
    }
    sorted
}

/// The sorted order of the first `n` positions is stable.
proof fn lemma_sort_prefix_stable(
    keys: Seq<Node>,
    n: nat,
    key: SortKey,
    direction: Direction,
    i: int,
    j: int,
    a: int,
    b: int,
)
    requires
        0 <= i < j < n,
        !precedes(key, direction, keys[j], keys[i]),
        0 <= a < n,
        0 <= b < n,
        sort_prefix(keys, n, key, direction)[a] == i,
        sort_prefix(keys, n, key, direction)[b] == j,
    ensures
        a < b,
    decreases n,
{
    let before = sort_prefix(keys, (n - 1) as nat, key, direction);
    lemma_sort_prefix_permutation(keys, (n - 1) as nat, key, direction);
    lemma_sort_prefix_permutation(keys, n, key, direction);
    let at = lemma_place_somewhere(before, keys, n - 1, key, direction);
    let after = before.insert(at, n - 1);
    // where the two stood before the last position was placed
    let a0 = if a < at {
        a
    } else {
        a - 1
    };
    let b0 = if b < at {
        b
    } else {
        b - 1
    };
    assert(after[at] == n - 1);
    assert(a != at);
    assert(before[a0] == i);
    if j == n - 1 {
        assert(after[b] == after[at]);
        assert(b == at);
        if a0 >= at {
            assert(precedes(key, direction, keys[n - 1], keys[before[a0]]));
        }
    } else {
        assert(b != at);
        assert(before[b0] == j);
        lemma_sort_prefix_stable(keys, (n - 1) as nat, key, direction, i, j, a0, b0);
    }
}

/// Sorting is stable: of two siblings of which the later one does not sort
/// before the earlier one, the earlier one still stands first afterwards. Two
/// siblings that are equal under the key therefore keep their order.
pub proof fn lemma_sort_stable(
    keys: Seq<Node>,
    key: Option<SortKey>,
    direction: Direction,
    i: int,
    j: int,
    a: int,
    b: int,
)
    requires
        0 <= i < j < keys.len(),
        key matches Some(by) ==> !precedes(by, direction, keys[j], keys[i]),
        0 <= a < keys.len(),
        0 <= b < keys.len(),
        sort_order(keys, key, direction)[a] == i,
        sort_order(keys, key, direction)[b] == j,
    ensures
        a < b,
{
    match key {
        Some(by) => lemma_sort_prefix_stable(keys, keys.len(), by, direction, i, j, a, b),
        None => {},
    }
}

/// The sorted order of the first `n` positions is in order.
proof fn lemma_sort_prefix_sorted(
    keys: Seq<Node>,
    n: nat,
    key: SortKey,
    direction: Direction,
    a: int,
    b: int,
)
    requires
        0 <= a < b < n,
    ensures
        !precedes(
            key,
            direction,
            keys[sort_prefix(keys, n, key, direction)[b]],
            keys[sort_prefix(keys, n, key, direction)[a]],
        ),
    decreases n, b - a,
{
    let before = sort_prefix(keys, (n - 1) as nat, key, direction);
    lemma_sort_prefix_permutation(keys, (n - 1) as nat, key, direction);
    let at = lemma_place_somewhere(before, keys, n - 1, key, direction);
    let after = before.insert(at, n - 1);
    let last = keys[n - 1];
    if b == at {
        // the earlier one does not come after the one that was placed
        if a == at - 1 {
        } else {
            lemma_sort_prefix_sorted(keys, (n - 1) as nat, key, direction, a, at - 1);
            if precedes(key, direction, last, keys[before[a]]) {
                lemma_precedes_between(
                    key,
                    direction,
                    keys[before[a]],
                    keys[before[at - 1]],
                    last,
                );
            }
        }
    } else if a == at {
        assert(after[b] == before[b - 1]);
        lemma_precedes_asymmetric(key, direction, last, keys[before[b - 1]]);
    } else {
        let a0 = if a < at {
            a
        } else {
            a - 1
        };
        let b0 = if b < at {
            b
        } else {
            b - 1
        };
        assert(after[a] == before[a0]);
        assert(after[b] == before[b0]);
        lemma_sort_prefix_sorted(keys, (n - 1) as nat, key, direction, a0, b0);
    }
}

/// Sorting puts in order: afterwards no sibling sorts before one that stands
/// earlier.
pub proof fn lemma_sort_sorted(keys: Seq<Node>, key: SortKey, direction: Direction, a: int, b: int)
    requires
        0 <= a < b < keys.len(),
    ensures
        !precedes(
            key,
            direction,
            keys[sort_order(keys, Some(key), direction)[b]],
            keys[sort_order(keys, Some(key), direction)[a]],
        ),
{
    lemma_sort_prefix_sorted(keys, keys.len(), key, direction, a, b);
}

} // verus!
