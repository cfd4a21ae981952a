//! Sums do not depend on the order of what is summed.

use crate::shape::{weight_all, Shape};
use crate::sort::{arrange, is_permutation};
use vstd::prelude::*;

verus! {

/// The sum of the numbers in `v`.
pub open spec fn total(v: Seq<nat>) -> nat
    decreases v.len(),
{
    if v.len() == 0 {
        0
    } else {
        total(v.drop_last()) + v.last()
    }
}

/// A number put in anywhere adds itself to the sum.
pub proof fn lemma_total_insert(v: Seq<nat>, k: int, x: nat)
    requires
        0 <= k <= v.len(),
    ensures
        total(v.insert(k, x)) == total(v) + x,
    decreases v.len(),
{
    let w = v.insert(k, x);
    if k == v.len() {
        assert(w.drop_last() == v);
    } else {
        assert(w.drop_last() == v.drop_last().insert(k, x));
        assert(w.last() == v.last());
        lemma_total_insert(v.drop_last(), k, x);
    }
}

/// The same numbers in another order have the same sum.
pub proof fn lemma_total_permuted(v: Seq<nat>, order: Seq<int>)
    requires
        is_permutation(order, v.len()),
    ensures
        total(arrange(v, order)) == total(v),
    decreases v.len(),
{
    let n = v.len() as int;
    if n == 0 {
        assert(arrange(v, order) =~= v);
    } else {
        assert(order.contains(n - 1));
        let k = choose|k: int| 0 <= k < order.len() && order[k] == n - 1;
        let fewer = order.remove(k);
        let front = v.drop_last();
        assert(is_permutation(fewer, front.len())) by {
            assert forall|i: int| 0 <= i < fewer.len() implies 0 <= #[trigger] fewer[i] < n - 1 by {
                let j = if i < k {
                    i
                } else {
                    i + 1
                };
                assert(fewer[i] == order[j]);
                assert(order[j] != order[k]);
            }
            assert forall|i: int, j: int|
                0 <= i < fewer.len() && 0 <= j < fewer.len() && i != j implies fewer[i]
                != fewer[j] by {
                let a = if i < k {
                    i
                } else {
                    i + 1
                };
                let b = if j < k {
                    j
                } else {
                    j + 1
                };
                assert(fewer[i] == order[a]);
                assert(fewer[j] == order[b]);
            }
            assert forall|i: int| 0 <= i < n - 1 implies #[trigger] fewer.contains(i) by {
                assert(order.contains(i));
                let j = choose|j: int| 0 <= j < order.len() && order[j] == i;
                if j < k {
                    assert(fewer[j] == i);
                } else {
                    assert(fewer[j - 1] == i);
                }
            }
        }
        lemma_total_permuted(front, fewer);
        let moved = arrange(front, fewer);
        assert(arrange(v, order) =~= moved.insert(k, v[n - 1])) by {
            assert forall|i: int| 0 <= i < order.len() implies arrange(v, order)[i] == moved.insert(
                k,
                v[n - 1],
            )[i] by {
                if i < k {
                    assert(fewer[i] == order[i]);
                    assert(order[i] != order[k]);
                } else if i > k {
                    assert(fewer[i - 1] == order[i]);
                    assert(order[i] != order[k]);
                }
            }
        }
        lemma_total_insert(moved, k, v[n - 1]);
    }
}

/// The weights of the trees in `shapes`, one for one.
pub open spec fn weights_of(shapes: Seq<Shape>) -> Seq<nat> {
    Seq::new(shapes.len(), |i: int| shapes[i].weight())
}

/// The weight of a list of trees is the sum of their weights.
pub proof fn lemma_weight_all_total(shapes: Seq<Shape>)
    ensures
        weight_all(shapes) == total(weights_of(shapes)),
    decreases shapes.len(),
{
    if shapes.len() > 0 {
        lemma_weight_all_total(shapes.drop_last());
        assert(weights_of(shapes).drop_last() =~= weights_of(shapes.drop_last()));
    }
}

/// The same trees in another order have the same weight.
pub proof fn lemma_weight_all_arranged(shapes: Seq<Shape>, order: Seq<int>)
    requires
        is_permutation(order, shapes.len()),
    ensures
        weight_all(arrange(shapes, order)) == weight_all(shapes),
{
    lemma_weight_all_total(shapes);
    lemma_weight_all_total(arrange(shapes, order));
    assert(weights_of(arrange(shapes, order)) =~= arrange(weights_of(shapes), order));
    lemma_total_permuted(weights_of(shapes), order);
}

} // verus!
