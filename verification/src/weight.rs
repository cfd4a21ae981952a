//! The bytes that the nodes of an arena add to the directories above them.

use crate::arena::Slot;
use indextree::NodeId;
use vstd::prelude::*;

verus! {

/// The number of bytes that the node under `id` adds to the directories above
/// it: its size, unless it is a directory, whose size is the sum of what is below.
pub open spec fn weight(slots: Map<NodeId, Slot>, id: NodeId) -> nat {
    if slots[id].data.spec_is_dir() {
        0
    } else {
        slots[id].data.spec_bytes()
    }
}

/// The sum of the weights of the handles of `ids` that are in `among`.
pub open spec fn mass(slots: Map<NodeId, Slot>, ids: Seq<NodeId>, among: Set<NodeId>) -> nat
    decreases ids.len(),
{
    if ids.len() == 0 {
        0
    } else {
        mass(slots, ids.drop_last(), among) + if among.contains(ids.last()) {
            weight(slots, ids.last())
        } else {
            0
        }
    }
}

/// The sum of the weights of all handles of `ids`.
pub open spec fn total_mass(slots: Map<NodeId, Slot>, ids: Seq<NodeId>) -> nat {
    mass(slots, ids, Set::full())
}

/// The mass of two sets without a common handle is the sum of their masses.
pub proof fn lemma_mass_union(
    slots: Map<NodeId, Slot>,
    ids: Seq<NodeId>,
    a: Set<NodeId>,
    b: Set<NodeId>,
)
    requires
        a.disjoint(b),
    ensures
        mass(slots, ids, a.union(b)) == mass(slots, ids, a) + mass(slots, ids, b),
    decreases ids.len(),
{
    if ids.len() > 0 {
        lemma_mass_union(slots, ids.drop_last(), a, b);
    }
}

/// A set has no more mass than a set that holds it.
pub proof fn lemma_mass_subset(
    slots: Map<NodeId, Slot>,
    ids: Seq<NodeId>,
    a: Set<NodeId>,
    b: Set<NodeId>,
)
    requires
        a.subset_of(b),
    ensures
        mass(slots, ids, a) <= mass(slots, ids, b),
    decreases ids.len(),
{
    if ids.len() > 0 {
        lemma_mass_subset(slots, ids.drop_last(), a, b);
    }
}

/// A set that holds none of the handles has no mass.
pub proof fn lemma_mass_none(slots: Map<NodeId, Slot>, ids: Seq<NodeId>, among: Set<NodeId>)
    requires
        forall|i: int| 0 <= i < ids.len() ==> !among.contains(#[trigger] ids[i]),
    ensures
        mass(slots, ids, among) == 0,
    decreases ids.len(),
{
    if ids.len() > 0 {
        assert(!among.contains(ids[ids.len() - 1]));
        assert forall|i: int| 0 <= i < ids.drop_last().len() implies !among.contains(
            #[trigger] ids.drop_last()[i],
        ) by {
            assert(ids.drop_last()[i] == ids[i]);
        }
        lemma_mass_none(slots, ids.drop_last(), among);
    }
}

/// The mass of a single handle that occurs once is its weight.
pub proof fn lemma_mass_single(slots: Map<NodeId, Slot>, ids: Seq<NodeId>, x: NodeId)
    requires
        ids.no_duplicates(),
        ids.contains(x),
    ensures
        mass(slots, ids, set![x]) == weight(slots, x),
    decreases ids.len(),
{
    let front = ids.drop_last();
    assert(front.no_duplicates()) by {
        assert forall|i: int, j: int|
            0 <= i < front.len() && 0 <= j < front.len() && i != j implies front[i] != front[j] by {
            assert(front[i] == ids[i]);
            assert(front[j] == ids[j]);
        }
    }
    if ids.last() == x {
        assert forall|i: int|
            0 <= i < front.len() implies !set![x].contains(#[trigger] front[i]) by {
            assert(front[i] == ids[i]);
            assert(ids[ids.len() - 1] == x);
        }
        lemma_mass_none(slots, front, set![x]);
    } else {
        let k = choose|k: int| 0 <= k < ids.len() && ids[k] == x;
        assert(front[k] == x);
        lemma_mass_single(slots, front, x);
    }
}

/// The mass of a set stays the same as long as the weights of its handles do.
pub proof fn lemma_mass_same(
    before: Map<NodeId, Slot>,
    after: Map<NodeId, Slot>,
    ids: Seq<NodeId>,
    among: Set<NodeId>,
)
    requires
        forall|i: int|
            0 <= i < ids.len() && among.contains(#[trigger] ids[i]) ==> weight(after, ids[i])
                == weight(before, ids[i]),
    ensures
        mass(after, ids, among) == mass(before, ids, among),
    decreases ids.len(),
{
    if ids.len() > 0 {
        let front = ids.drop_last();
        assert(ids.last() == ids[ids.len() - 1]);
        assert forall|i: int|
            0 <= i < front.len() && among.contains(#[trigger] front[i]) implies weight(
            after,
            front[i],
        ) == weight(before, front[i]) by {
            assert(front[i] == ids[i]);
        }
        lemma_mass_same(before, after, front, among);
    }
}

/// One more handle adds its weight to the total.
pub proof fn lemma_total_mass_push(slots: Map<NodeId, Slot>, ids: Seq<NodeId>, x: NodeId)
    ensures
        total_mass(slots, ids.push(x)) == total_mass(slots, ids) + weight(slots, x),
{
    assert(ids.push(x).drop_last() == ids);
}

} // verus!
