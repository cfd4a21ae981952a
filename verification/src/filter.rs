//! The passes over a finished tree: pruning, and the restriction to directories.

use crate::arena::{
    all_but, arena_children, arena_descendants, arena_detach, arena_node, arena_remove_subtree,
    arena_slots, detached, handles_of, represents, Branch, Slot,
};
use crate::assemble::{lemma_represents_live, twig};
use crate::branch::lemma_shapes_of;
use crate::cut::{
    lemma_cut, lemma_parts, lemma_parts_held, lemma_top_apart, lemma_without_handles,
    lemma_without_none, lemma_without_shape, lemma_without_twice,
};
use crate::node::Node;
use crate::shape::{keep_dirs, keep_occupied, lemma_settled, lemma_swept_pruned, Shape};
use crate::tree::{held, is_rooted, is_tree, lemma_held, Tree};
use indextree::{Arena, NodeId};
use vstd::prelude::*;
use vstd::set_lib::lemma_len_subset;

verus! {

/// Whether `x` is the handle of one of the first `k` trees inside `branch`,
/// the tree itself left out, that `keep` refuses.
pub open spec fn marked(branch: Branch, keep: spec_fn(Shape) -> bool, k: int, x: NodeId) -> bool {
    exists|j: int|
        1 <= j < k && j < branch.parts().len() && (#[trigger] branch.parts()[j]).id == x && !keep(
            branch.parts()[j].shape(),
        )
}

/// Taking out the marked nodes leaves, as a value, the tree with the choice
/// made.
proof fn lemma_marked_shape(branch: Branch, keep: spec_fn(Shape) -> bool, gone: Set<NodeId>)
    requires
        branch.handles().no_duplicates(),
        forall|x: NodeId|
            gone.contains(x) <==> marked(branch, keep, branch.parts().len() as int, x),
    ensures
        branch.without(gone).shape() == branch.shape().retain(keep),
{
    lemma_parts(branch);
    let parts = branch.parts();
    assert forall|part: Branch| #[trigger] parts.contains(part) && part.id != branch.id implies (
    gone.contains(part.id) <==> !keep(part.shape())) by {
        let j = choose|j: int| 0 <= j < parts.len() && parts[j] == part;
        assert(j >= 1);
        if !keep(part.shape()) {
            assert(parts[j].id == part.id);
            assert(marked(branch, keep, parts.len() as int, part.id));
        }
        if gone.contains(part.id) {
            let i = choose|i: int|
                1 <= i < parts.len() && i < parts.len() && (#[trigger] parts[i]).id == part.id
                    && !keep(parts[i].shape());
            assert(branch.handles()[i] == branch.handles()[j]);
            assert(i == j);
        }
    }
    lemma_without_shape(branch, gone, keep);
}

/// A tree with a node taken out has fewer handles.
proof fn lemma_fewer(branch: Branch, gone: Set<NodeId>, x: NodeId)
    requires
        branch.handles().no_duplicates(),
        branch.handles().contains(x),
        x != branch.id,
        gone.contains(x),
    ensures
        branch.without(gone).handles().len() < branch.handles().len(),
{
    let left = branch.without(gone).handles();
    let all = branch.handles();
    crate::cut::lemma_without_distinct(branch, gone);
    left.unique_seq_to_set();
    all.unique_seq_to_set();
    assert forall|y: NodeId|
        left.to_set().contains(y) implies all.to_set().remove(x).contains(y) by {
        lemma_without_handles(branch, gone, y);
    }
    vstd::seq_lib::seq_to_set_is_finite(all);
    lemma_len_subset(left.to_set(), all.to_set().remove(x));
}

/// In a tree that the arena holds, every node but the top points at a live node
/// that has children.
proof fn lemma_parent_held(slots: Map<NodeId, Slot>, branch: Branch, part: Branch)
    requires
        represents(slots, branch),
        branch.parts().contains(part),
        part != branch,
    ensures
        slots[part.id].parent matches Some(above) && slots.dom().contains(above)
            && slots[above].children.len() > 0,
    decreases branch,
{
    let i = crate::cut::lemma_part_where(branch, part);
    let child = branch.children[i];
    if part == child {
        assert(branch.child_ids().len() == branch.children.len());
    } else {
        lemma_parent_held(slots, child, part);
    }
}

/// One more node is cut out of the tree.
proof fn lemma_step_cut(
    before: Map<NodeId, Slot>,
    branch: Branch,
    gone: Set<NodeId>,
    x: NodeId,
    after: Map<NodeId, Slot>,
)
    requires
        is_tree(before, branch.without(gone)),
        x != branch.id,
        forall|y: NodeId|
            y != x && #[trigger] before.dom().contains(y) ==> after.dom().contains(y) && after[y]
                == detached(before, x)[y],
    ensures
        is_tree(after, branch.without(gone.insert(x))),
{
    let current = branch.without(gone);
    assert(current.id == branch.id);
    assert forall|y: NodeId| #[trigger]
        current.without(set![x]).handles().contains(y) implies after.dom().contains(y) && after[y]
        == detached(before, x)[y] by {
        lemma_without_handles(current, set![x], y);
        assert(y != x);
        lemma_represents_live(before, current, y);
        assert(before.dom().contains(y));
    }
    lemma_cut(before, current, x, after);
    lemma_without_twice(branch, gone, set![x]);
    assert(gone.union(set![x]) =~= gone.insert(x));
}

/// The handles of the first `n` of `ids`.
pub open spec fn first_of(ids: Seq<NodeId>, n: int) -> Set<NodeId> {
    Set::new(|x: NodeId| exists|i: int| 0 <= i < n && i < ids.len() && #[trigger] ids[i] == x)
}

/// Whether the nodes under the handles in `gone` have left the arena, and the
/// tree that hangs from `root` is the one that hung from it, without them.
pub open spec fn pruned_to(
    before: Map<NodeId, Slot>,
    after: Map<NodeId, Slot>,
    root: NodeId,
    gone: Set<NodeId>,
) -> bool {
    &&& held(after, root) == held(before, root).without(gone)
    &&& after.dom() == before.dom().difference(gone)
}

impl Tree {
    /// Removes the directories below `root_id` under which there is nothing but
    /// directories, if anything.
    ///
    /// In each sweep every directory below the root that has no children is
    /// removed; the sweeps go on until one finds none. The root stays, whatever
    /// is left below it, and so do the order and the nodes of what is left.
    pub fn prune_directories(root_id: NodeId, tree: &mut Arena<Node>)
        requires
            is_rooted(arena_slots(*old(tree)), root_id),
        ensures
            is_rooted(arena_slots(*final(tree)), root_id),
            held(arena_slots(*final(tree)), root_id).shape() == held(
                arena_slots(*old(tree)),
                root_id,
            ).shape().pruned(),
            exists|gone: Set<NodeId>|
                pruned_to(arena_slots(*old(tree)), arena_slots(*final(tree)), root_id, gone),
            forall|x: NodeId| #[trigger]
                arena_slots(*final(tree)).dom().contains(x) ==> arena_slots(*final(tree))[x].data
                    == arena_slots(*old(tree))[x].data,
        decreases held(arena_slots(*old(tree)), root_id).handles().len(),
    {
        let ghost s0 = arena_slots(*tree);
        let ghost b0 = held(s0, root_id);
        let ghost parts = b0.parts();
        let ghost keep = keep_occupied();
        proof {
            lemma_parts(b0);
            assert(b0.handles()[0] == root_id);
            lemma_represents_live(s0, b0, root_id);
        }
        let handles = arena_descendants(tree, root_id);
        let mut to_prune: Vec<NodeId> = Vec::new();
        let mut k: usize = 1;
        while k < handles.len()
            invariant
                1 <= k <= handles.len(),
                handles@ == b0.handles(),
                parts == b0.parts(),
                parts.len() == handles.len(),
                keep == keep_occupied(),
                is_tree(s0, b0),
                b0.id == root_id,
                arena_slots(*tree) == s0,
                to_prune@.no_duplicates(),
                forall|x: NodeId|
                    #![trigger to_prune@.contains(x)]
                    #![trigger marked(b0, keep, k as int, x)]
                    to_prune@.contains(x) <==> marked(b0, keep, k as int, x),
                forall|i: int|
                    0 <= i < to_prune@.len() ==> {
                        &&& s0.dom().contains(#[trigger] to_prune@[i])
                        &&& s0[to_prune@[i]].children.len() == 0
                        &&& to_prune@[i] != root_id
                        &&& b0.handles().contains(to_prune@[i])
                        &&& s0[to_prune@[i]].parent matches Some(above) && s0.dom().contains(above)
                            && s0[above].children.len() > 0
                    },
            decreases handles.len() - k,
        {
            let id = handles[k];
            let ghost part = parts[k as int];
            proof {
                lemma_parts(b0);
                assert(parts.contains(part));
                lemma_parts_held(s0, b0, part);
                lemma_shapes_of(part.children);
                assert(part.child_ids().len() == part.children.len());
                assert(id != root_id) by {
                    assert(b0.handles()[0] == root_id);
                }
                lemma_parent_held(s0, b0, part);
            }
            let mut empty = false;
            if arena_node(tree, id).is_dir() {
                let children = arena_children(tree, id);
                empty = children.len() == 0;
            }
            proof {
                assert(empty == !keep(part.shape()));
                let before = to_prune@;
                let after = if empty {
                    before.push(id)
                } else {
                    before
                };
                assert forall|x: NodeId|
                    #![trigger after.contains(x)]
                    #![trigger marked(b0, keep, k + 1, x)]
                    after.contains(x) <==> marked(b0, keep, k + 1, x) by {
                    if after.contains(x) {
                        if before.contains(x) {
                            assert(marked(b0, keep, k as int, x));
                            let j = choose|j: int|
                                1 <= j < k && j < parts.len() && (#[trigger] parts[j]).id == x && !keep(
                                    parts[j].shape(),
                                );
                            assert(parts[j].id == x);
                        } else {
                            let i = choose|i: int| 0 <= i < after.len() && after[i] == x;
                            assert(i == before.len());
                            assert(parts[k as int].id == x);
                        }
                    }
                    if marked(b0, keep, k + 1, x) {
                        let j = choose|j: int|
                            1 <= j < k + 1 && j < parts.len() && (#[trigger] parts[j]).id == x && !keep(
                                parts[j].shape(),
                            );
                        if j < k {
                            assert(marked(b0, keep, k as int, x));
                            let i = choose|i: int| 0 <= i < before.len() && before[i] == x;
                            assert(after[i] == x);
                        } else {
                            assert(after[before.len() as int] == x);
                        }
                    }
                }
                if empty {
                    assert(!before.contains(id)) by {
                        if before.contains(id) {
                            assert(marked(b0, keep, k as int, id));
                            let j = choose|j: int|
                                1 <= j < k && j < parts.len() && (#[trigger] parts[j]).id == id && !keep(
                                    parts[j].shape(),
                                );
                            assert(b0.handles()[j] == b0.handles()[k as int]);
                        }
                    }
                    assert(b0.handles().contains(id));
                }
            }
            if empty {
                to_prune.push(id);
            }
            k = k + 1;
        }
        if to_prune.len() == 0 {
            proof {
                let gone = Set::<NodeId>::empty();
                assert forall|x: NodeId|
                    gone.contains(x) <==> marked(b0, keep, parts.len() as int, x) by {
                    if marked(b0, keep, parts.len() as int, x) {
                        assert(to_prune@.contains(x));
                    }
                }
                lemma_marked_shape(b0, keep, gone);
                lemma_top_apart(b0);
                lemma_without_none(b0, gone);
                lemma_settled(b0.shape());
                assert(s0.dom().difference(gone) =~= s0.dom());
                assert(pruned_to(s0, s0, root_id, gone));
            }
            return ;
        }
        proof {
            assert(first_of(to_prune@, 0) =~= Set::empty());
            lemma_top_apart(b0);
            lemma_without_none(b0, Set::empty());
            assert(s0.dom().difference(first_of(to_prune@, 0)) =~= s0.dom());
        }
        let mut j: usize = 0;
        while j < to_prune.len()
            invariant
                0 <= j <= to_prune.len(),
                b0.id == root_id,
                to_prune@.no_duplicates(),
                is_tree(arena_slots(*tree), b0.without(first_of(to_prune@, j as int))),
                arena_slots(*tree).dom() == s0.dom().difference(first_of(to_prune@, j as int)),
                forall|x: NodeId| #[trigger]
                    arena_slots(*tree).dom().contains(x) ==> arena_slots(*tree)[x].data
                        == s0[x].data,
                forall|i: int|
                    0 <= i < to_prune@.len() ==> (#[trigger] to_prune@[i]) != root_id,
                forall|i: int|
                    0 <= i < to_prune@.len() ==> s0[#[trigger] to_prune@[i]].children.len() == 0,
                forall|i: int|
                    j <= i < to_prune@.len() ==> {
                        &&& arena_slots(*tree).dom().contains(#[trigger] to_prune@[i])
                        &&& arena_slots(*tree)[to_prune@[i]].children.len() == 0
                        &&& arena_slots(*tree)[to_prune@[i]].parent matches Some(above)
                            && arena_slots(*tree).dom().contains(above) && s0[above].children.len()
                            > 0
                    },
            decreases to_prune.len() - j,
        {
            let x = to_prune[j];
            let ghost s = arena_slots(*tree);
            proof {
                let leaf = twig(s, x);
                assert(leaf.child_ids() =~= s[x].children);
                assert(represents(s, leaf));
                assert(handles_of(leaf.children) =~= Seq::empty());
                assert(leaf.handles() =~= seq![x]);
                assert(leaf.handles().to_set() =~= set![x]) by {
                    assert(leaf.handles()[0] == x);
                }
            }
            arena_remove_subtree(tree, x);
            proof {
                let s2 = arena_slots(*tree);
                assert(s2 == detached(s, x).remove_keys(set![x]));
                lemma_step_cut(s, b0, first_of(to_prune@, j as int), x, s2);
                assert(first_of(to_prune@, j as int).insert(x) =~= first_of(to_prune@, j + 1)) by {
                    assert forall|y: NodeId|
                        first_of(to_prune@, j as int).insert(x).contains(y) <==> first_of(
                            to_prune@,
                            j + 1,
                        ).contains(y) by {
                        if first_of(to_prune@, j as int).contains(y) {
                            let i = choose|i: int|
                                0 <= i < j && i < to_prune@.len() && #[trigger] to_prune@[i] == y;
                            assert(to_prune@[i] == y);
                        }
                        if y == x {
                            assert(to_prune@[j as int] == y);
                        }
                    }
                }
                assert forall|i: int| j + 1 <= i < to_prune@.len() implies {
                    &&& s2.dom().contains(#[trigger] to_prune@[i])
                    &&& s2[to_prune@[i]].children.len() == 0
                    &&& s2[to_prune@[i]].parent matches Some(above) && s2.dom().contains(above)
                        && s0[above].children.len() > 0
                } by {
                    let y = to_prune@[i];
                    assert(y != x);
                    assert(all_but(s[y].children, x) =~= s[y].children);
                    let above = s[y].parent->0;
                    assert(above != x) by {
                        assert(s0[to_prune@[j as int]].children.len() == 0);
                    }
                }
                assert(s2.dom() =~= s0.dom().difference(first_of(to_prune@, j + 1)));
            }
            j = j + 1;
        }
        proof {
            let gone = first_of(to_prune@, to_prune@.len() as int);
            assert forall|x: NodeId|
                gone.contains(x) <==> marked(b0, keep, parts.len() as int, x) by {
                if gone.contains(x) {
                    let i = choose|i: int|
                        0 <= i < to_prune@.len() && i < to_prune@.len() && #[trigger] to_prune@[i] == x;
                    assert(to_prune@.contains(x));
                }
                if marked(b0, keep, parts.len() as int, x) {
                    assert(to_prune@.contains(x));
                    let i = choose|i: int| 0 <= i < to_prune@.len() && to_prune@[i] == x;
                    assert(to_prune@[i] == x);
                }
            }
            lemma_marked_shape(b0, keep, gone);
            let first = to_prune@[0];
            assert(gone.contains(first));
            assert(to_prune@.contains(first));
            assert(marked(b0, keep, parts.len() as int, first));
            let i = choose|i: int|
                1 <= i < parts.len() && i < parts.len() && (#[trigger] parts[i]).id == first && !keep(
                    parts[i].shape(),
                );
            lemma_parts(b0);
            assert(b0.handles()[i] == first);
            lemma_fewer(b0, gone, first);
            lemma_held(arena_slots(*tree), b0.without(gone));
            lemma_swept_pruned(b0.shape());
        }
        let ghost s1 = arena_slots(*tree);
        let ghost first = first_of(to_prune@, to_prune@.len() as int);
        Tree::prune_directories(root_id, tree);
        proof {
            let s2 = arena_slots(*tree);
            let more = choose|more: Set<NodeId>| pruned_to(s1, s2, root_id, more);
            lemma_without_twice(b0, first, more);
            assert(s2.dom() =~= s0.dom().difference(first.union(more)));
            assert(pruned_to(s0, s2, root_id, first.union(more)));
            assert forall|x: NodeId| #[trigger] s2.dom().contains(x) implies s2[x].data
                == s0[x].data by {
                assert(s1.dom().contains(x));
            }
        }
    }

    /// Cuts everything that is no directory out of the tree below `root`. What
    /// is cut stays in the arena, out of reach of the root; the directories that
    /// are left keep their order and their nodes.
    pub fn filter_directories(root: NodeId, tree: &mut Arena<Node>)
        requires
            is_rooted(arena_slots(*old(tree)), root),
        ensures
            is_rooted(arena_slots(*final(tree)), root),
            held(arena_slots(*final(tree)), root).shape() == held(
                arena_slots(*old(tree)),
                root,
            ).shape().dirs_only(),
            exists|gone: Set<NodeId>|
                held(arena_slots(*final(tree)), root) == held(arena_slots(*old(tree)), root).without(
                    gone,
                ),
            arena_slots(*final(tree)).dom() == arena_slots(*old(tree)).dom(),
            forall|x: NodeId| #[trigger]
                arena_slots(*final(tree)).dom().contains(x) ==> arena_slots(*final(tree))[x].data
                    == arena_slots(*old(tree))[x].data,
    {
        let ghost s0 = arena_slots(*tree);
        let ghost b0 = held(s0, root);
        let ghost parts = b0.parts();
        let ghost keep = keep_dirs();
        proof {
            lemma_parts(b0);
            assert(b0.handles()[0] == root);
            lemma_represents_live(s0, b0, root);
        }
        let handles = arena_descendants(tree, root);
        let mut to_detach: Vec<NodeId> = Vec::new();
        let mut k: usize = 1;
        while k < handles.len()
            invariant
                1 <= k <= handles.len(),
                handles@ == b0.handles(),
                parts == b0.parts(),
                parts.len() == handles.len(),
                keep == keep_dirs(),
                is_tree(s0, b0),
                b0.id == root,
                arena_slots(*tree) == s0,
                forall|x: NodeId|
                    #![trigger to_detach@.contains(x)]
                    #![trigger marked(b0, keep, k as int, x)]
                    to_detach@.contains(x) <==> marked(b0, keep, k as int, x),
                forall|i: int|
                    0 <= i < to_detach@.len() ==> {
                        &&& s0.dom().contains(#[trigger] to_detach@[i])
                        &&& to_detach@[i] != root
                        &&& s0[to_detach@[i]].parent matches Some(above) && s0.dom().contains(above)
                    },
            decreases handles.len() - k,
        {
            let id = handles[k];
            let ghost part = parts[k as int];
            proof {
                lemma_parts(b0);
                assert(parts.contains(part));
                lemma_parts_held(s0, b0, part);
                assert(id != root) by {
                    assert(b0.handles()[0] == root);
                }
                lemma_parent_held(s0, b0, part);
            }
            let is_dir = arena_node(tree, id).is_dir();
            proof {
                assert(is_dir == keep(part.shape()));
                let before = to_detach@;
                let after = if !is_dir {
                    before.push(id)
                } else {
                    before
                };
                assert forall|x: NodeId|
                    #![trigger after.contains(x)]
                    #![trigger marked(b0, keep, k + 1, x)]
                    after.contains(x) <==> marked(b0, keep, k + 1, x) by {
                    if after.contains(x) {
                        if before.contains(x) {
                            assert(marked(b0, keep, k as int, x));
                            let j = choose|j: int|
                                1 <= j < k && j < parts.len() && (#[trigger] parts[j]).id == x && !keep(
                                    parts[j].shape(),
                                );
                            assert(parts[j].id == x);
                        } else {
                            let i = choose|i: int| 0 <= i < after.len() && after[i] == x;
                            assert(i == before.len());
                            assert(parts[k as int].id == x);
                        }
                    }
                    if marked(b0, keep, k + 1, x) {
                        let j = choose|j: int|
                            1 <= j < k + 1 && j < parts.len() && (#[trigger] parts[j]).id == x && !keep(
                                parts[j].shape(),
                            );
                        if j < k {
                            assert(marked(b0, keep, k as int, x));
                            let i = choose|i: int| 0 <= i < before.len() && before[i] == x;
                            assert(after[i] == x);
                        } else {
                            assert(after[before.len() as int] == x);
                        }
                    }
                }
            }
            if !is_dir {
                to_detach.push(id);
            }
            k = k + 1;
        }
        proof {
            assert(first_of(to_detach@, 0) =~= Set::empty());
            lemma_top_apart(b0);
            lemma_without_none(b0, Set::empty());
        }
        let mut j: usize = 0;
        while j < to_detach.len()
            invariant
                0 <= j <= to_detach.len(),
                b0.id == root,
                is_tree(arena_slots(*tree), b0.without(first_of(to_detach@, j as int))),
                arena_slots(*tree).dom() == s0.dom(),
                forall|x: NodeId| #[trigger]
                    s0.dom().contains(x) ==> arena_slots(*tree)[x].data == s0[x].data,
                forall|i: int|
                    0 <= i < to_detach@.len() ==> {
                        &&& s0.dom().contains(#[trigger] to_detach@[i])
                        &&& to_detach@[i] != root
                    },
                forall|i: int|
                    j <= i < to_detach@.len() ==> (arena_slots(*tree)[#[trigger] to_detach@[i]].parent matches Some(
                        above,
                    ) ==> s0.dom().contains(above)),
            decreases to_detach.len() - j,
        {
            let x = to_detach[j];
            let ghost s = arena_slots(*tree);
            arena_detach(tree, x);
            proof {
                let s2 = arena_slots(*tree);
                assert(s2.dom() =~= s0.dom());
                lemma_step_cut(s, b0, first_of(to_detach@, j as int), x, s2);
                assert(first_of(to_detach@, j as int).insert(x) =~= first_of(to_detach@, j + 1)) by {
                    assert forall|y: NodeId|
                        first_of(to_detach@, j as int).insert(x).contains(y) <==> first_of(
                            to_detach@,
                            j + 1,
                        ).contains(y) by {
                        if first_of(to_detach@, j as int).contains(y) {
                            let i = choose|i: int|
                                0 <= i < j && i < to_detach@.len() && #[trigger] to_detach@[i] == y;
                            assert(to_detach@[i] == y);
                        }
                        if y == x {
                            assert(to_detach@[j as int] == y);
                        }
                    }
                }
            }
            j = j + 1;
        }
        proof {
            let gone = first_of(to_detach@, to_detach@.len() as int);
            assert forall|x: NodeId|
                gone.contains(x) <==> marked(b0, keep, parts.len() as int, x) by {
                if gone.contains(x) {
                    let i = choose|i: int|
                        0 <= i < to_detach@.len() && i < to_detach@.len() && #[trigger] to_detach@[i]
                            == x;
                    assert(to_detach@.contains(x));
                }
                if marked(b0, keep, parts.len() as int, x) {
                    assert(to_detach@.contains(x));
                    let i = choose|i: int| 0 <= i < to_detach@.len() && to_detach@[i] == x;
                    assert(to_detach@[i] == x);
                }
            }
            lemma_marked_shape(b0, keep, gone);
            lemma_held(arena_slots(*tree), b0.without(gone));
            assert(held(arena_slots(*tree), root) == held(s0, root).without(gone));
        }
    }
}

} // verus!
