//! Facts about the trees that an arena holds.

use crate::arena::{handles_of, represents, shapes_of, Branch, Slot};
use indextree::NodeId;
use vstd::prelude::*;
use vstd::seq_lib::lemma_no_dup_in_concat;

verus! {

/// Whether the trees in `branches` have no handle twice, neither within one tree
/// nor in two of them.
pub open spec fn separate(branches: Seq<Branch>) -> bool {
    &&& forall|i: int|
        0 <= i < branches.len() ==> (#[trigger] branches[i]).handles().no_duplicates()
    &&& forall|i: int, j: int, x: NodeId|
        #![trigger holds(branches[i], x), holds(branches[j], x)]
        0 <= i < branches.len() && 0 <= j < branches.len() && i != j && holds(branches[i], x)
            ==> !holds(branches[j], x)
}

/// Whether `x` is one of the handles of `branch`.
pub open spec fn holds(branch: Branch, x: NodeId) -> bool {
    branch.handles().contains(x)
}

/// The trees of `shapes_of` are those of the branches, one for one.
pub proof fn lemma_shapes_of(branches: Seq<Branch>)
    ensures
        shapes_of(branches).len() == branches.len(),
        forall|i: int|
            0 <= i < branches.len() ==> shapes_of(branches)[i] == (#[trigger] branches[i]).shape(),
    decreases branches.len(),
{
    if branches.len() > 0 {
        lemma_shapes_of(branches.drop_last());
        assert forall|i: int| 0 <= i < branches.len() implies shapes_of(branches)[i] == (
        #[trigger] branches[i]).shape() by {
            if i < branches.len() - 1 {
                assert(branches.drop_last()[i] == branches[i]);
            }
        }
    }
}

/// A handle is among those of a list of trees exactly if one of the trees has it.
pub proof fn lemma_handles_of_contains(branches: Seq<Branch>, x: NodeId)
    ensures
        handles_of(branches).contains(x) <==> exists|i: int|
            0 <= i < branches.len() && (#[trigger] branches[i]).handles().contains(x),
    decreases branches.len(),
{
    if branches.len() == 0 {
        assert(!handles_of(branches).contains(x));
    } else {
        let front = branches.drop_last();
        let last = branches.last();
        lemma_handles_of_contains(front, x);
        let all = handles_of(branches);
        assert(all == handles_of(front) + last.handles());
        if all.contains(x) {
            let k = choose|k: int| 0 <= k < all.len() && all[k] == x;
            if k < handles_of(front).len() {
                assert(handles_of(front)[k] == x);
                assert(handles_of(front).contains(x));
                let i = choose|i: int|
                    0 <= i < front.len() && (#[trigger] front[i]).handles().contains(x);
                assert(branches[i] == front[i]);
            } else {
                assert(last.handles()[k - handles_of(front).len()] == x);
                assert(branches[branches.len() - 1].handles().contains(x));
            }
        }
        if exists|i: int|
            0 <= i < branches.len() && (#[trigger] branches[i]).handles().contains(x) {
            let i = choose|i: int|
                0 <= i < branches.len() && (#[trigger] branches[i]).handles().contains(x);
            if i < front.len() {
                assert(front[i] == branches[i]);
                assert(handles_of(front).contains(x));
                let k = choose|k: int|
                    0 <= k < handles_of(front).len() && handles_of(front)[k] == x;
                assert(all[k] == x);
            } else {
                let k = choose|k: int| 0 <= k < last.handles().len() && last.handles()[k] == x;
                assert(all[handles_of(front).len() + k] == x);
            }
        }
    }
}

/// Trees that share no handle have, taken together, no handle twice.
pub proof fn lemma_separate_handles(branches: Seq<Branch>)
    requires
        separate(branches),
    ensures
        handles_of(branches).no_duplicates(),
    decreases branches.len(),
{
    if branches.len() > 0 {
        let front = branches.drop_last();
        let last = branches.last();
        assert(separate(front)) by {
            assert forall|i: int| 0 <= i < front.len() implies (
            #[trigger] front[i]).handles().no_duplicates() by {
                assert(front[i] == branches[i]);
            }
            assert forall|i: int, j: int, x: NodeId|
                #![trigger holds(front[i], x), holds(front[j], x)]
                0 <= i < front.len() && 0 <= j < front.len() && i != j && holds(
                    front[i],
                    x,
                ) implies !holds(front[j], x) by {
                assert(front[i] == branches[i]);
                assert(front[j] == branches[j]);
                assert(holds(branches[i], x));
                assert(!holds(branches[j], x));
            }
        }
        lemma_separate_handles(front);
        assert(last == branches[branches.len() - 1]);
        assert forall|i: int, j: int|
            0 <= i < handles_of(front).len() && 0 <= j < last.handles().len() implies handles_of(
            front,
        )[i] != last.handles()[j] by {
            let x = handles_of(front)[i];
            if x == last.handles()[j] {
                assert(handles_of(front).contains(x));
                assert(last.handles().contains(x));
                lemma_handles_of_contains(front, x);
                let k = choose|k: int|
                    0 <= k < front.len() && (#[trigger] front[k]).handles().contains(x);
                assert(front[k] == branches[k]);
                assert(holds(branches[k], x));
                assert(holds(branches[branches.len() - 1], x));
                assert(false);
            }
        }
        lemma_no_dup_in_concat(handles_of(front), last.handles());
    }
}

/// Trees that, taken together, have no handle twice share no handle.
pub proof fn lemma_handles_separate(branches: Seq<Branch>)
    requires
        handles_of(branches).no_duplicates(),
    ensures
        separate(branches),
    decreases branches.len(),
{
    if branches.len() > 0 {
        let front = branches.drop_last();
        let last = branches.last();
        let a = handles_of(front);
        let b = last.handles();
        let all = handles_of(branches);
        assert(all == a + b);
        assert(a.no_duplicates()) by {
            assert forall|i: int, j: int|
                0 <= i < a.len() && 0 <= j < a.len() && i != j implies a[i]
                != a[j] by {
                assert(all[i] == a[i]);
                assert(all[j] == a[j]);
            }
        }
        assert(b.no_duplicates()) by {
            assert forall|i: int, j: int|
                0 <= i < b.len() && 0 <= j < b.len() && i != j implies b[i]
                != b[j] by {
                assert(all[a.len() + i] == b[i]);
                assert(all[a.len() + j] == b[j]);
            }
        }
        lemma_handles_separate(front);
        assert forall|i: int| 0 <= i < branches.len() implies (
        #[trigger] branches[i]).handles().no_duplicates() by {
            if i < front.len() {
                assert(front[i] == branches[i]);
            }
        }
        assert forall|i: int, j: int, x: NodeId|
            #![trigger holds(branches[i], x), holds(branches[j], x)]
            0 <= i < branches.len() && 0 <= j < branches.len() && i != j && holds(
                branches[i],
                x,
            ) implies !holds(branches[j], x) by {
            if branches[j].handles().contains(x) {
                if i < front.len() && j < front.len() {
                    assert(front[i] == branches[i]);
                    assert(front[j] == branches[j]);
                    assert(holds(front[i], x));
                    assert(!holds(front[j], x));
                } else {
                    let (lo, hi) = if i < j {
                        (i, j)
                    } else {
                        (j, i)
                    };
                    assert(front[lo] == branches[lo]);
                    lemma_handles_of_contains(front, x);
                    assert(a.contains(x));
                    let p = choose|p: int| 0 <= p < a.len() && a[p] == x;
                    let q = choose|q: int| 0 <= q < b.len() && b[q] == x;
                    assert(all[p] == x);
                    assert(all[a.len() + q] == x);
                }
            }
        }
    }
}

/// A tree stays in the arena as long as its nodes keep their data and children,
/// and all but the top keep their parent.
pub proof fn lemma_represents_frame(
    before: Map<NodeId, Slot>,
    after: Map<NodeId, Slot>,
    branch: Branch,
)
    requires
        represents(before, branch),
        forall|x: NodeId| #[trigger]
            branch.handles().contains(x) ==> {
                &&& after.dom().contains(x)
                &&& after[x].data == before[x].data
                &&& after[x].children == before[x].children
                &&& x != branch.id ==> after[x].parent == before[x].parent
            },
    ensures
        represents(after, branch),
    decreases branch,
{
    assert(branch.handles()[0] == branch.id);
    assert(branch.handles().contains(branch.id));
    assert forall|i: int| 0 <= i < branch.children.len() implies {
        &&& after.dom().contains(#[trigger] branch.children[i].id)
        &&& after[branch.children[i].id].parent == Some(branch.id)
        &&& represents(after, branch.children[i])
    } by {
        let child = branch.children[i];
        assert(child.handles()[0] == child.id);
        assert(child.handles().contains(child.id));
        lemma_top_not_below(before, branch, i);
        lemma_below(branch, i, child.id);
        assert(represents(before, child));
        assert forall|x: NodeId| #[trigger] child.handles().contains(x) implies {
            &&& after.dom().contains(x)
            &&& after[x].data == before[x].data
            &&& after[x].children == before[x].children
            &&& x != child.id ==> after[x].parent == before[x].parent
        } by {
            lemma_below(branch, i, x);
        }
        lemma_represents_frame(before, after, child);
    }
}

/// A handle of a child is a handle of the tree.
pub proof fn lemma_below(branch: Branch, i: int, x: NodeId)
    requires
        0 <= i < branch.children.len(),
        branch.children[i].handles().contains(x),
    ensures
        branch.handles().contains(x),
        handles_of(branch.children).contains(x),
{
    lemma_handles_of_contains(branch.children, x);
    let k = choose|k: int|
        0 <= k < handles_of(branch.children).len() && handles_of(branch.children)[k] == x;
    assert(branch.handles()[k + 1] == x);
}

/// The handle at the top of a tree that the arena holds is not repeated below
/// it.
pub proof fn lemma_top_not_below(slots: Map<NodeId, Slot>, branch: Branch, i: int)
    requires
        represents(slots, branch),
        0 <= i < branch.children.len(),
    ensures
        !branch.children[i].handles().contains(branch.id),
{
    lemma_heights(slots, branch.children[i], branch.id);
    lemma_height_of_child(branch, i);
}

/// The number of levels of a tree.
pub open spec fn height(branch: Branch) -> nat
    decreases branch, 1nat,
{
    1 + height_of(branch.children)
}

/// The number of levels of the tallest tree in `branches`.
pub open spec fn height_of(branches: Seq<Branch>) -> nat
    decreases branches, 0nat,
{
    if branches.len() == 0 {
        0
    } else {
        let front = height_of(branches.drop_last());
        let last = height(branches.last());
        if front < last {
            last
        } else {
            front
        }
    }
}

proof fn lemma_height_of_bound(branches: Seq<Branch>, i: int)
    requires
        0 <= i < branches.len(),
    ensures
        height(branches[i]) <= height_of(branches),
    decreases branches.len(),
{
    if i < branches.len() - 1 {
        lemma_height_of_bound(branches.drop_last(), i);
        assert(branches.drop_last()[i] == branches[i]);
    }
}

proof fn lemma_height_of_child(branch: Branch, i: int)
    requires
        0 <= i < branch.children.len(),
    ensures
        height(branch.children[i]) < height(branch),
{
    lemma_height_of_bound(branch.children, i);
}

/// The arena holds at most one tree under a handle, so the tree under a handle
/// has one height.
pub proof fn lemma_represents_unique(slots: Map<NodeId, Slot>, a: Branch, b: Branch)
    requires
        represents(slots, a),
        represents(slots, b),
        a.id == b.id,
    ensures
        a == b,
    decreases a,
{
    assert(a.child_ids() == b.child_ids());
    assert(a.children.len() == b.children.len()) by {
        assert(a.child_ids().len() == b.child_ids().len());
    }
    assert forall|i: int| 0 <= i < a.children.len() implies a.children[i] == b.children[i] by {
        assert(a.child_ids()[i] == b.child_ids()[i]);
        lemma_represents_unique(slots, a.children[i], b.children[i]);
    }
    assert(a.children =~= b.children);
}

/// Every tree that the arena holds under a handle found inside `branch` is no
/// taller than `branch`.
proof fn lemma_heights(slots: Map<NodeId, Slot>, branch: Branch, x: NodeId)
    requires
        represents(slots, branch),
    ensures
        branch.handles().contains(x) ==> forall|other: Branch|
            other.id == x && #[trigger] represents(slots, other) ==> height(other) <= height(branch),
    decreases branch,
{
    if branch.handles().contains(x) {
        assert forall|other: Branch|
            other.id == x && #[trigger] represents(slots, other) implies height(
            other,
        ) <= height(branch) by {
            if x == branch.id {
                lemma_represents_unique(slots, other, branch);
            } else {
                let k = choose|k: int| 0 <= k < branch.handles().len() && branch.handles()[k] == x;
                assert(k > 0);
                assert(handles_of(branch.children)[k - 1] == x);
                assert(handles_of(branch.children).contains(x));
                lemma_handles_of_contains(branch.children, x);
                let i = choose|i: int|
                    0 <= i < branch.children.len() && (#[trigger] branch.children[i]).handles().contains(
                        x,
                    );
                lemma_heights(slots, branch.children[i], x);
                lemma_height_of_child(branch, i);
            }
        }
    }
}

} // verus!
