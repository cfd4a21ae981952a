//! Cutting nodes out of the trees that an arena holds.

use crate::arena::{all_but, detached, handles_of, represents, shapes_of, Branch, Slot};
use crate::branch::{
    holds, lemma_below, lemma_handles_of_contains, lemma_handles_separate, lemma_separate_handles,
    separate,
};
use crate::shape::{retain_all, Shape};
use crate::tree::is_tree;
use indextree::NodeId;
use vstd::prelude::*;

verus! {

/// The trees of `branches` whose top is not in `gone`, in their order, each
/// without the nodes in `gone` and what hangs from them.
pub open spec fn without_all(branches: Seq<Branch>, gone: Set<NodeId>) -> Seq<Branch>
    decreases branches, 0nat,
{
    if branches.len() == 0 {
        Seq::empty()
    } else if gone.contains(branches.last().id) {
        without_all(branches.drop_last(), gone)
    } else {
        without_all(branches.drop_last(), gone).push(branches.last().without(gone))
    }
}

/// The trees inside the trees of `branches`, each tree in pre-order.
pub open spec fn parts_of(branches: Seq<Branch>) -> Seq<Branch>
    decreases branches, 0nat,
{
    if branches.len() == 0 {
        Seq::empty()
    } else {
        parts_of(branches.drop_last()) + branches.last().parts()
    }
}

impl Branch {
    /// The tree without the nodes below the top whose handle is in `gone`, and
    /// without what hangs from them.
    pub open spec fn without(self, gone: Set<NodeId>) -> Branch
        decreases self, 1nat,
    {
        Branch { id: self.id, node: self.node, children: without_all(self.children, gone) }
    }

    /// The trees inside the tree, itself first, in pre-order: the tree that hangs
    /// from each node.
    pub open spec fn parts(self) -> Seq<Branch>
        decreases self, 1nat,
    {
        seq![self] + parts_of(self.children)
    }
}

/// The trees inside a list of trees carry the handles of the list, one for one.
pub proof fn lemma_parts_of(branches: Seq<Branch>)
    ensures
        parts_of(branches).len() == handles_of(branches).len(),
        forall|k: int|
            0 <= k < parts_of(branches).len() ==> (#[trigger] parts_of(branches)[k]).id
                == handles_of(branches)[k],
    decreases branches, 0nat,
{
    if branches.len() > 0 {
        lemma_parts_of(branches.drop_last());
        lemma_parts(branches.last());
    }
}

/// The trees inside a tree carry its handles, one for one.
pub proof fn lemma_parts(branch: Branch)
    ensures
        branch.parts().len() == branch.handles().len(),
        forall|k: int|
            0 <= k < branch.parts().len() ==> (#[trigger] branch.parts()[k]).id
                == branch.handles()[k],
        branch.parts()[0] == branch,
    decreases branch, 1nat,
{
    lemma_parts_of(branch.children);
}

/// A tree is inside a list of trees exactly if it is inside one of them.
pub proof fn lemma_parts_of_contains(branches: Seq<Branch>, part: Branch)
    ensures
        parts_of(branches).contains(part) <==> exists|i: int|
            0 <= i < branches.len() && (#[trigger] branches[i]).parts().contains(part),
    decreases branches.len(),
{
    if branches.len() == 0 {
        assert(!parts_of(branches).contains(part));
    } else {
        let front = branches.drop_last();
        let last = branches.last();
        lemma_parts_of_contains(front, part);
        let all = parts_of(branches);
        let a = parts_of(front);
        let b = last.parts();
        assert(all == a + b);
        if all.contains(part) {
            let k = choose|k: int| 0 <= k < all.len() && all[k] == part;
            if k < a.len() {
                assert(a[k] == part);
                assert(a.contains(part));
                let i = choose|i: int|
                    0 <= i < front.len() && (#[trigger] front[i]).parts().contains(part);
                assert(branches[i] == front[i]);
            } else {
                assert(b[k - a.len()] == part);
                assert(branches[branches.len() - 1].parts().contains(part));
            }
        }
        if exists|i: int|
            0 <= i < branches.len() && (#[trigger] branches[i]).parts().contains(part) {
            let i = choose|i: int|
                0 <= i < branches.len() && (#[trigger] branches[i]).parts().contains(part);
            if i < front.len() {
                assert(front[i] == branches[i]);
                assert(a.contains(part));
                let k = choose|k: int| 0 <= k < a.len() && a[k] == part;
                assert(all[k] == part);
            } else {
                let k = choose|k: int| 0 <= k < b.len() && b[k] == part;
                assert(all[a.len() + k] == part);
            }
        }
    }
}

/// A tree inside a tree other than the tree itself is inside one of the
/// children.
pub proof fn lemma_part_where(branch: Branch, part: Branch) -> (i: int)
    requires
        branch.parts().contains(part),
        part != branch,
    ensures
        0 <= i < branch.children.len(),
        branch.children[i].parts().contains(part),
{
    let k = choose|k: int| 0 <= k < branch.parts().len() && branch.parts()[k] == part;
    assert(k > 0);
    assert(parts_of(branch.children)[k - 1] == part);
    assert(parts_of(branch.children).contains(part));
    lemma_parts_of_contains(branch.children, part);
    choose|i: int|
        0 <= i < branch.children.len() && (#[trigger] branch.children[i]).parts().contains(part)
}

/// The arena holds every tree inside a tree that it holds.
pub proof fn lemma_parts_held(slots: Map<NodeId, Slot>, branch: Branch, part: Branch)
    requires
        represents(slots, branch),
        branch.parts().contains(part),
    ensures
        represents(slots, part),
        slots.dom().contains(part.id),
    decreases branch,
{
    if part != branch {
        let i = lemma_part_where(branch, part);
        lemma_parts_held(slots, branch.children[i], part);
    }
}

/// The handles at the top of `branches`, first to last.
pub open spec fn tops_of(branches: Seq<Branch>) -> Seq<NodeId> {
    Seq::new(branches.len(), |i: int| branches[i].id)
}

/// The place in `branches` of the tree from which the tree at place `m` of what
/// is left comes.
pub open spec fn source(branches: Seq<Branch>, gone: Set<NodeId>, m: int) -> int
    decreases branches.len(),
{
    if branches.len() == 0 {
        0
    } else if !gone.contains(branches.last().id) && m == without_all(
        branches.drop_last(),
        gone,
    ).len() {
        branches.len() - 1
    } else {
        source(branches.drop_last(), gone, m)
    }
}

/// The number of trees among the first `i` of `branches` whose top is not gone:
/// the place at which the tree at place `i` is left, if it is.
pub open spec fn place_left(branches: Seq<Branch>, gone: Set<NodeId>, i: int) -> int {
    without_all(branches.take(i), gone).len() as int
}

/// Each tree that is left comes from the tree at its source, whose top is not
/// gone, and stands at the place of its source.
pub proof fn lemma_source(branches: Seq<Branch>, gone: Set<NodeId>, m: int)
    requires
        0 <= m < without_all(branches, gone).len(),
    ensures
        0 <= source(branches, gone, m) < branches.len(),
        !gone.contains(branches[source(branches, gone, m)].id),
        without_all(branches, gone)[m] == branches[source(branches, gone, m)].without(gone),
        place_left(branches, gone, source(branches, gone, m)) == m,
    decreases branches.len(),
{
    let front = branches.drop_last();
    let before = without_all(front, gone);
    if !gone.contains(branches.last().id) && m == before.len() {
        assert(branches.take(branches.len() - 1) == front);
    } else {
        lemma_source(front, gone, m);
        let i = source(front, gone, m);
        assert(front[i] == branches[i]);
        assert(front.take(i) == branches.take(i));
    }
}

/// What is left of a tree has handles of the tree only, and below the top none
/// that is gone.
pub proof fn lemma_without_handles(branch: Branch, gone: Set<NodeId>, y: NodeId)
    requires
        branch.without(gone).handles().contains(y),
    ensures
        branch.handles().contains(y),
        y == branch.id || !gone.contains(y),
    decreases branch,
{
    let left = branch.without(gone);
    assert(branch.handles()[0] == branch.id);
    if y != branch.id {
        let k = choose|k: int| 0 <= k < left.handles().len() && left.handles()[k] == y;
        assert(handles_of(left.children)[k - 1] == y);
        lemma_handles_of_contains(left.children, y);
        let m = choose|m: int|
            0 <= m < left.children.len() && (#[trigger] left.children[m]).handles().contains(y);
        lemma_source(branch.children, gone, m);
        let i = source(branch.children, gone, m);
        let child = branch.children[i];
        assert(child.without(gone).handles()[0] == child.id);
        lemma_without_handles(child, gone, y);
        lemma_below(branch, i, y);
    }
}

/// In a tree without a handle twice, the children share no handle, and none of
/// them has the handle of the top.
pub proof fn lemma_top_apart(branch: Branch)
    requires
        branch.handles().no_duplicates(),
    ensures
        separate(branch.children),
        handles_of(branch.children).no_duplicates(),
        !handles_of(branch.children).contains(branch.id),
        forall|i: int|
            0 <= i < branch.children.len() ==> !(#[trigger] branch.children[i]).handles().contains(
                branch.id,
            ),
{
    let all = branch.handles();
    let rest = handles_of(branch.children);
    assert forall|i: int, j: int|
        0 <= i < rest.len() && 0 <= j < rest.len() && i != j implies rest[i]
        != rest[j] by {
        assert(all[i + 1] == rest[i]);
        assert(all[j + 1] == rest[j]);
    }
    lemma_handles_separate(branch.children);
    if rest.contains(branch.id) {
        let k = choose|k: int| 0 <= k < rest.len() && rest[k] == branch.id;
        assert(all[k + 1] == rest[k]);
        assert(all[0] == branch.id);
        assert(false);
    }
    assert forall|i: int| 0 <= i < branch.children.len() implies !(
    #[trigger] branch.children[i]).handles().contains(branch.id) by {
        if branch.children[i].handles().contains(branch.id) {
            lemma_below(branch, i, branch.id);
        }
    }
}

/// What is left of trees that share no handle shares no handle.
pub proof fn lemma_without_all_separate(branches: Seq<Branch>, gone: Set<NodeId>)
    requires
        separate(branches),
    ensures
        separate(without_all(branches, gone)),
    decreases branches, 0nat,
{
    let below = without_all(branches, gone);
    assert forall|m: int| 0 <= m < below.len() implies (
    #[trigger] below[m]).handles().no_duplicates() by {
        lemma_source(branches, gone, m);
        lemma_without_distinct(branches[source(branches, gone, m)], gone);
    }
    assert forall|m: int, n: int, x: NodeId|
        #![trigger holds(below[m], x), holds(below[n], x)]
        0 <= m < below.len() && 0 <= n < below.len() && m != n && holds(below[m], x) implies !holds(
        below[n],
        x,
    ) by {
        if holds(below[n], x) {
            lemma_source(branches, gone, m);
            lemma_source(branches, gone, n);
            let i = source(branches, gone, m);
            let j = source(branches, gone, n);
            lemma_without_handles(branches[i], gone, x);
            lemma_without_handles(branches[j], gone, x);
            assert(holds(branches[i], x));
            assert(holds(branches[j], x));
            assert(i == j);
        }
    }
}

/// What is left of a tree without a handle twice has no handle twice.
pub proof fn lemma_without_distinct(branch: Branch, gone: Set<NodeId>)
    requires
        branch.handles().no_duplicates(),
    ensures
        branch.without(gone).handles().no_duplicates(),
    decreases branch, 1nat,
{
    let left = branch.without(gone);
    let below = left.children;
    lemma_top_apart(branch);
    lemma_without_all_separate(branch.children, gone);
    lemma_separate_handles(below);
    let rest = handles_of(below);
    assert forall|i: int, j: int|
        0 <= i < left.handles().len() && 0 <= j < left.handles().len() && i != j implies left.handles()[i]
        != left.handles()[j] by {
        if i > 0 && j > 0 {
            assert(rest[i - 1] == left.handles()[i]);
            assert(rest[j - 1] == left.handles()[j]);
        } else {
            let k = if i > 0 {
                i
            } else {
                j
            };
            let y = left.handles()[k];
            assert(rest[k - 1] == y);
            assert(left.handles().contains(y));
            if y == branch.id {
                lemma_handles_of_contains(below, y);
                let m = choose|m: int|
                    0 <= m < below.len() && (#[trigger] below[m]).handles().contains(y);
                lemma_source(branch.children, gone, m);
                let c = source(branch.children, gone, m);
                lemma_without_handles(branch.children[c], gone, y);
                lemma_below(branch, c, y);
                assert(false);
            }
        }
    }
}

/// Taking a handle out of a list that does not hold it leaves the list as it is.
pub proof fn lemma_all_but_absent(ids: Seq<NodeId>, id: NodeId)
    requires
        !ids.contains(id),
    ensures
        all_but(ids, id) == ids,
    decreases ids.len(),
{
    if ids.len() > 0 {
        let front = ids.drop_last();
        assert(ids[ids.len() - 1] == ids.last());
        assert(!front.contains(id)) by {
            if front.contains(id) {
                let k = choose|k: int| 0 <= k < front.len() && front[k] == id;
                assert(ids[k] == id);
            }
        }
        lemma_all_but_absent(front, id);
        assert(front.push(ids.last()) == ids);
    }
}

/// The tops of what is left when one handle goes are the tops without that
/// handle.
pub proof fn lemma_without_tops(branches: Seq<Branch>, x: NodeId)
    ensures
        tops_of(without_all(branches, set![x])) == all_but(tops_of(branches), x),
    decreases branches.len(),
{
    if branches.len() == 0 {
        assert(tops_of(without_all(branches, set![x])) =~= all_but(tops_of(branches), x));
    } else {
        let front = branches.drop_last();
        let last = branches.last();
        lemma_without_tops(front, x);
        assert(tops_of(branches).drop_last() =~= tops_of(front));
        assert(tops_of(branches).last() == last.id);
        assert(last.without(set![x]).id == last.id);
        assert(tops_of(without_all(branches, set![x])) =~= all_but(tops_of(branches), x));
    }
}

/// Where nothing below the top is gone, the tree is left as it is.
pub proof fn lemma_without_none(branch: Branch, gone: Set<NodeId>)
    requires
        forall|y: NodeId| #[trigger] handles_of(branch.children).contains(y) ==> !gone.contains(y),
    ensures
        branch.without(gone) == branch,
    decreases branch, 1nat,
{
    lemma_without_all_none(branch.children, gone);
}

/// Where none of the handles is gone, the trees are left as they are.
pub proof fn lemma_without_all_none(branches: Seq<Branch>, gone: Set<NodeId>)
    requires
        forall|y: NodeId| #[trigger] handles_of(branches).contains(y) ==> !gone.contains(y),
    ensures
        without_all(branches, gone) == branches,
    decreases branches, 0nat,
{
    if branches.len() > 0 {
        let front = branches.drop_last();
        let last = branches.last();
        assert(branches[branches.len() - 1] == last);
        assert forall|y: NodeId|
            #[trigger] handles_of(front).contains(y) implies !gone.contains(y) by {
            lemma_handles_of_contains(front, y);
            let i = choose|i: int|
                0 <= i < front.len() && (#[trigger] front[i]).handles().contains(y);
            assert(front[i] == branches[i]);
            lemma_handles_of_contains(branches, y);
        }
        lemma_without_all_none(front, gone);
        assert forall|y: NodeId|
            #[trigger] last.handles().contains(y) implies !gone.contains(y) by {
            lemma_handles_of_contains(branches, y);
        }
        assert(last.handles()[0] == last.id);
        assert(last.handles().contains(last.id));
        assert forall|y: NodeId|
            #[trigger] handles_of(last.children).contains(y) implies !gone.contains(
            y,
        ) by {
            let k = choose|k: int|
                0 <= k < handles_of(last.children).len() && handles_of(last.children)[k] == y;
            assert(last.handles()[k + 1] == y);
            assert(last.handles().contains(y));
        }
        lemma_without_none(last, gone);
        assert(front.push(last) == branches);
    }
}

/// Taking nodes out in two turns leaves what taking them out at once leaves.
pub proof fn lemma_without_twice(branch: Branch, first: Set<NodeId>, then: Set<NodeId>)
    ensures
        branch.without(first).without(then) == branch.without(first.union(then)),
    decreases branch, 1nat,
{
    lemma_without_all_twice(branch.children, first, then);
}

/// Taking nodes out of a list of trees in two turns leaves what taking them out
/// at once leaves.
pub proof fn lemma_without_all_twice(branches: Seq<Branch>, first: Set<NodeId>, then: Set<NodeId>)
    ensures
        without_all(without_all(branches, first), then) == without_all(
            branches,
            first.union(then),
        ),
    decreases branches, 0nat,
{
    if branches.len() > 0 {
        let front = branches.drop_last();
        let last = branches.last();
        lemma_without_all_twice(front, first, then);
        if !first.contains(last.id) {
            let once = without_all(front, first).push(last.without(first));
            assert(once.drop_last() == without_all(front, first));
            assert(once.last() == last.without(first));
            lemma_without_twice(last, first, then);
        }
    }
}

/// What is left of a tree, as a value, is the value with the same choice made:
/// provided that `gone` holds, of the handles below the top, exactly those of
/// the trees that `keep` refuses.
pub proof fn lemma_without_shape(branch: Branch, gone: Set<NodeId>, keep: spec_fn(Shape) -> bool)
    requires
        branch.handles().no_duplicates(),
        forall|part: Branch| #[trigger]
            branch.parts().contains(part) && part.id != branch.id ==> (gone.contains(part.id) <==> !keep(
                part.shape(),
            )),
    ensures
        branch.without(gone).shape() == branch.shape().retain(keep),
    decreases branch, 1nat,
{
    lemma_top_apart(branch);
    assert forall|part: Branch| #[trigger] parts_of(branch.children).contains(part) implies (
    gone.contains(part.id) <==> !keep(part.shape())) by {
        let k = choose|k: int|
            0 <= k < parts_of(branch.children).len() && parts_of(branch.children)[k] == part;
        assert(branch.parts()[k + 1] == part);
        assert(branch.parts().contains(part));
        lemma_parts_of(branch.children);
        assert(handles_of(branch.children)[k] == part.id);
        assert(handles_of(branch.children).contains(part.id));
        assert(part.id != branch.id);
    }
    lemma_without_all_shape(branch.children, gone, keep);
}

/// What is left of a list of trees, as values, is the list of values with the
/// same choice made.
pub proof fn lemma_without_all_shape(
    branches: Seq<Branch>,
    gone: Set<NodeId>,
    keep: spec_fn(Shape) -> bool,
)
    requires
        separate(branches),
        forall|part: Branch| #[trigger]
            parts_of(branches).contains(part) ==> (gone.contains(part.id) <==> !keep(part.shape())),
    ensures
        shapes_of(without_all(branches, gone)) == retain_all(shapes_of(branches), keep),
    decreases branches, 0nat,
{
    if branches.len() == 0 {
        assert(shapes_of(without_all(branches, gone)) =~= retain_all(shapes_of(branches), keep));
    } else {
        let front = branches.drop_last();
        let last = branches.last();
        assert(branches[branches.len() - 1] == last);
        assert(separate(front)) by {
            assert forall|a: int| 0 <= a < front.len() implies (
            #[trigger] front[a]).handles().no_duplicates() by {
                assert(front[a] == branches[a]);
            }
            assert forall|a: int, b: int, x: NodeId|
                #![trigger holds(front[a], x), holds(front[b], x)]
                0 <= a < front.len() && 0 <= b < front.len() && a != b && holds(
                    front[a],
                    x,
                ) implies !holds(front[b], x) by {
                assert(front[a] == branches[a]);
                assert(front[b] == branches[b]);
                assert(holds(branches[a], x));
                assert(!holds(branches[b], x));
            }
        }
        assert forall|part: Branch|
            #[trigger] parts_of(front).contains(part) implies (gone.contains(
            part.id,
        ) <==> !keep(part.shape())) by {
            lemma_parts_of_contains(front, part);
            let i = choose|i: int|
                0 <= i < front.len() && (#[trigger] front[i]).parts().contains(part);
            assert(front[i] == branches[i]);
            lemma_parts_of_contains(branches, part);
        }
        lemma_without_all_shape(front, gone, keep);
        assert forall|part: Branch| #[trigger] last.parts().contains(part) implies (gone.contains(
            part.id,
        ) <==> !keep(part.shape())) by {
            lemma_parts_of_contains(branches, part);
        }
        lemma_parts(last);
        assert(last.parts().contains(last));
        lemma_without_shape(last, gone, keep);
        let shapes = shapes_of(branches);
        assert(shapes.drop_last() == shapes_of(front));
        assert(shapes.last() == last.shape());
        if !gone.contains(last.id) {
            let left = without_all(front, gone).push(last.without(gone));
            assert(left.drop_last() == without_all(front, gone));
            assert(left.last() == last.without(gone));
        }
    }
}

/// Cutting a node loose from its parent cuts it out of the tree: what the arena
/// then holds is the tree without the node and what hung from it. It is enough
/// that the nodes that are left are in the arena as the cut leaves them.
pub proof fn lemma_cut(
    before: Map<NodeId, Slot>,
    branch: Branch,
    x: NodeId,
    after: Map<NodeId, Slot>,
)
    requires
        is_tree(before, branch),
        x != branch.id,
        forall|y: NodeId| #[trigger]
            branch.without(set![x]).handles().contains(y) ==> after.dom().contains(y) && after[y]
                == detached(before, x)[y],
    ensures
        is_tree(after, branch.without(set![x])),
{
    lemma_without_distinct(branch, set![x]);
    lemma_cut_held(before, branch, x, after);
}

/// The arena holds what is left of a tree after a cut.
proof fn lemma_cut_held(
    before: Map<NodeId, Slot>,
    branch: Branch,
    x: NodeId,
    after: Map<NodeId, Slot>,
)
    requires
        represents(before, branch),
        branch.handles().no_duplicates(),
        x != branch.id,
        forall|y: NodeId| #[trigger]
            branch.without(set![x]).handles().contains(y) ==> after.dom().contains(y) && after[y]
                == detached(before, x)[y],
    ensures
        represents(after, branch.without(set![x])),
    decreases branch,
{
    let gone = set![x];
    let left = branch.without(gone);
    let cut = detached(before, x);
    assert(left.handles()[0] == branch.id);
    assert(left.handles().contains(branch.id));
    lemma_top_apart(branch);
    // the children of the top
    lemma_without_tops(branch.children, x);
    assert(left.child_ids() =~= tops_of(left.children));
    assert(branch.child_ids() =~= tops_of(branch.children));
    assert(cut[branch.id].children == all_but(before[branch.id].children, x)) by {
        if before[x].parent != Some(branch.id) {
            if before[branch.id].children.contains(x) {
                let i = choose|i: int|
                    0 <= i < before[branch.id].children.len() && before[branch.id].children[i] == x;
                assert(branch.children[i].id == x);
            }
            lemma_all_but_absent(before[branch.id].children, x);
        }
    }
    assert forall|m: int| 0 <= m < left.children.len() implies {
        &&& after.dom().contains(#[trigger] left.children[m].id)
        &&& after[left.children[m].id].parent == Some(left.id)
        &&& represents(after, left.children[m])
    } by {
        lemma_source(branch.children, gone, m);
        let i = source(branch.children, gone, m);
        let child = branch.children[i];
        let rest = left.children[m];
        assert(rest == child.without(gone));
        assert(rest.handles()[0] == child.id);
        assert(rest.handles().contains(child.id));
        lemma_below(left, m, child.id);
        assert forall|y: NodeId|
            #[trigger] rest.handles().contains(y) implies after.dom().contains(y)
            && after[y] == cut[y] by {
            lemma_below(left, m, y);
        }
        lemma_cut_held(before, child, x, after);
    }
}

} // verus!
