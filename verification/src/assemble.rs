//! Assembling a tree from loose nodes and the lists of their children.

use crate::arena::{
    arena_append, arena_node, arena_node_mut, arena_slots, handles_of, represents, shapes_of,
    Branch, Slot,
};
use crate::branch::{
    holds, lemma_handles_of_contains, lemma_represents_frame, lemma_separate_handles,
    lemma_shapes_of, separate,
};
use crate::branches::Branches;
use crate::context::Context;
use crate::error::Error;
use crate::model::{assemble, assemble_first, joined, sum_bytes, tops};
use crate::node::{FileSize, Node};
use crate::pending::{
    at, lemma_listed_once, lemma_pending_nodes_remove, lemma_scattered_sublists,
    lemma_sublists_listed, listed, loose, pending_nodes, scattered, sublists, Lists,
};
use crate::shape::{weight_all, Shape};
use crate::sum::lemma_weight_all_arranged;
use crate::sort::{
    arrange, is_permutation, lemma_sort_order_permutation, nodes_of, sort_children, sort_order,
};
use crate::tree::{is_tree, Tree};
use crate::weight::{
    lemma_mass_none, lemma_mass_same, lemma_mass_single, lemma_mass_subset, lemma_mass_union, mass,
    total_mass, weight,
};
use indextree::{Arena, NodeId};
use vstd::prelude::*;
use vstd::set_lib::lemma_len_subset;

verus! {

/// Whether every node has kept its entry, and every node but the directories
/// all that it holds.
pub open spec fn kept_entries(before: Map<NodeId, Slot>, after: Map<NodeId, Slot>) -> bool {
    &&& after.dom() == before.dom()
    &&& forall|x: NodeId| #[trigger]
        before.dom().contains(x) ==> {
            &&& after[x].data.entry() == before[x].data.entry()
            &&& !before[x].data.spec_is_dir() ==> after[x].data == before[x].data
        }
}

/// What assembling the directory under `current` asks for: loose nodes in the
/// lists, the directory loose itself and in none of them, and sizes that add up
/// within the range of the byte counts. `created` names the nodes that count.
pub open spec fn ready(
    slots: Map<NodeId, Slot>,
    lists: Lists,
    current: NodeId,
    created: Seq<NodeId>,
) -> bool {
    &&& scattered(slots, lists)
    &&& loose(slots, current)
    &&& slots[current].data.spec_is_dir()
    &&& !listed(lists, current)
    &&& created.no_duplicates()
    &&& created.contains(current)
    &&& forall|x: NodeId| #[trigger] listed(lists, x) ==> created.contains(x)
    &&& forall|i: int| 0 <= i < created.len() ==> slots.dom().contains(#[trigger] created[i])
    &&& total_mass(slots, created) <= u64::MAX
}

/// What assembling the directory under `current` leaves behind: the arena holds
/// the tree `branch` under it, which is the tree that the lists give; the lists
/// that were not needed are left; every node outside the tree is as it was.
pub open spec fn assembled(
    before: Map<NodeId, Slot>,
    lists: Lists,
    after: Map<NodeId, Slot>,
    left: Lists,
    current: NodeId,
    created: Seq<NodeId>,
    ctx: Context,
    branch: Branch,
) -> bool {
    &&& branch.id == current
    &&& is_tree(after, branch)
    &&& after[current].parent is None
    &&& assemble(pending_nodes(before, lists), before[current].data, ctx) == Some(
        (branch.shape(), pending_nodes(after, left)),
    )
    &&& kept_entries(before, after)
    &&& forall|x: NodeId|
        before.dom().contains(x) && !branch.handles().contains(x) ==> #[trigger] after[x]
            == before[x]
    &&& forall|x: NodeId| #[trigger]
        branch.handles().contains(x) ==> x == current || (listed(lists, x) && !listed(left, x))
    &&& sublists(left, lists)
    &&& after[current].data.spec_bytes() == mass(after, created, branch.handles().to_set())
    &&& branch.shape().aggregated(ctx)
    &&& branch.shape().weight() == after[current].data.spec_bytes()
}

/// Where the assembly of a directory stands when the first `k` of its children
/// are done: `built` holds their trees.
pub open spec fn progress(
    s0: Map<NodeId, Slot>,
    rest0: Lists,
    children: Seq<NodeId>,
    k: int,
    s: Map<NodeId, Slot>,
    lists: Lists,
    built: Seq<Branch>,
    created: Seq<NodeId>,
    ctx: Context,
) -> bool {
    &&& 0 <= k <= children.len()
    &&& built.len() == k
    &&& forall|j: int|
        0 <= j < k ==> {
            &&& (#[trigger] built[j]).id == children[j]
            &&& represents(s, built[j])
            &&& s[children[j]].parent is None
            &&& built[j].shape().aggregated(ctx)
            &&& built[j].shape().weight() == built[j].node.spec_bytes()
        }
    &&& separate(built)
    &&& kept_entries(s0, s)
    &&& forall|x: NodeId|
        s0.dom().contains(x) && !handles_of(built).contains(x) ==> #[trigger] s[x] == s0[x]
    &&& forall|x: NodeId| #[trigger]
        handles_of(built).contains(x) ==> !listed(lists, x) && (is_one_of(children, k, x) || listed(
            rest0,
            x,
        ))
    &&& sublists(lists, rest0)
    &&& lists.dom().finite()
    &&& assemble_first(pending_nodes(s0, rest0), nodes_of(s0, children), k as nat, ctx) == Some(
        (shapes_of(built), pending_nodes(s, lists)),
    )
    &&& sum_bytes(tops(shapes_of(built))) == mass(s, created, handles_of(built).to_set())
}

/// Whether `x` is one of the first `k` handles of `ids`.
pub open spec fn is_one_of(ids: Seq<NodeId>, k: int, x: NodeId) -> bool {
    exists|j: int| 0 <= j < k && j < ids.len() && #[trigger] ids[j] == x
}

/// The tree of a node that stands alone.
pub open spec fn twig(slots: Map<NodeId, Slot>, id: NodeId) -> Branch {
    Branch { id, node: slots[id].data, children: Seq::empty() }
}

/// Every handle of a tree that the arena holds is live.
pub proof fn lemma_represents_live(slots: Map<NodeId, Slot>, branch: Branch, x: NodeId)
    requires
        represents(slots, branch),
        branch.handles().contains(x),
    ensures
        slots.dom().contains(x),
    decreases branch,
{
    if x != branch.id {
        let k = choose|k: int| 0 <= k < branch.handles().len() && branch.handles()[k] == x;
        assert(handles_of(branch.children)[k - 1] == x);
        lemma_handles_of_contains(branch.children, x);
        let i = choose|i: int|
            0 <= i < branch.children.len() && (#[trigger] branch.children[i]).handles().contains(x);
        lemma_represents_live(slots, branch.children[i], x);
    }
}

/// The weights stay the same as long as the entries do and only directories
/// change.
pub proof fn lemma_kept_weights(
    before: Map<NodeId, Slot>,
    after: Map<NodeId, Slot>,
    ids: Seq<NodeId>,
    among: Set<NodeId>,
)
    requires
        kept_entries(before, after),
        forall|i: int| 0 <= i < ids.len() ==> before.dom().contains(#[trigger] ids[i]),
    ensures
        mass(after, ids, among) == mass(before, ids, among),
{
    assert forall|i: int| 0 <= i < ids.len() && among.contains(#[trigger] ids[i]) implies weight(
        after,
        ids[i],
    ) == weight(before, ids[i]) by {
        assert(before.dom().contains(ids[i]));
    }
    lemma_mass_same(before, after, ids, among);
}

/// Before the first child, nothing is built and all lists but that of the
/// directory are left.
proof fn lemma_progress_start(
    s0: Map<NodeId, Slot>,
    lists0: Lists,
    current: NodeId,
    created: Seq<NodeId>,
    ctx: Context,
)
    requires
        ready(s0, lists0, current, created),
        lists0.dom().contains(s0[current].data.entry().path@),
    ensures
        progress(
            s0,
            lists0.remove(s0[current].data.entry().path@),
            lists0[s0[current].data.entry().path@],
            0,
            s0,
            lists0.remove(s0[current].data.entry().path@),
            Seq::empty(),
            created,
            ctx,
        ),
{
    let path = s0[current].data.entry().path@;
    let rest0 = lists0.remove(path);
    let built = Seq::<Branch>::empty();
    lemma_pending_nodes_remove(s0, rest0, path);
    assert(pending_nodes(s0, rest0).dom().finite());
    assert(handles_of(built) =~= Seq::empty());
    assert(handles_of(built).to_set() =~= Set::empty());
    lemma_mass_none(s0, created, Set::empty());
    assert(shapes_of(built) =~= Seq::empty());
    assert(tops(shapes_of(built)) =~= Seq::empty());
}

/// What is known of the next child before it is worked on.
proof fn lemma_child_ready(
    s0: Map<NodeId, Slot>,
    lists0: Lists,
    current: NodeId,
    created: Seq<NodeId>,
    ctx: Context,
    k: int,
    s: Map<NodeId, Slot>,
    lists: Lists,
    built: Seq<Branch>,
)
    requires
        ready(s0, lists0, current, created),
        lists0.dom().contains(s0[current].data.entry().path@),
        progress(
            s0,
            lists0.remove(s0[current].data.entry().path@),
            lists0[s0[current].data.entry().path@],
            k,
            s,
            lists,
            built,
            created,
            ctx,
        ),
        k < lists0[s0[current].data.entry().path@].len(),
    ensures
        ({
            let child = lists0[s0[current].data.entry().path@][k];
            &&& s.dom().contains(child)
            &&& s[child] == s0[child]
            &&& loose(s, child)
            &&& !handles_of(built).contains(child)
            &&& !handles_of(built).contains(current)
            &&& s[current] == s0[current]
            &&& scattered(s, lists)
            &&& !listed(lists, child)
            &&& !listed(lists, current)
            &&& child != current
            &&& created.contains(child)
            &&& lists.dom().len() < lists0.dom().len()
            &&& s[child].data.spec_is_dir() ==> ready(s, lists, child, created)
        }),
{
    let path = s0[current].data.entry().path@;
    let rest0 = lists0.remove(path);
    let children = lists0[path];
    let child = children[k];
    assert(at(lists0, path, k));
    assert(listed(lists0, child));
    lemma_listed_once(s0, lists0, path, k);
    // the child is in no tree that has been built
    if handles_of(built).contains(child) {
        assert(is_one_of(children, k, child));
        let j = choose|j: int| 0 <= j < k && j < children.len() && #[trigger] children[j] == child;
        assert(at(lists0, path, j));
        assert(false);
    }
    // nor is the directory itself
    if handles_of(built).contains(current) {
        if is_one_of(children, k, current) {
            let j = choose|j: int|
                0 <= j < k && j < children.len() && #[trigger] children[j] == current;
            assert(at(lists0, path, j));
            assert(listed(lists0, current));
        } else {
            lemma_sublists_listed(rest0, lists0, current);
        }
        assert(false);
    }
    assert(sublists(rest0, lists0));
    assert(sublists(lists, lists0));
    if listed(lists, child) {
        lemma_sublists_listed(lists, rest0, child);
    }
    if listed(lists, current) {
        lemma_sublists_listed(lists, lists0, current);
    }
    assert forall|x: NodeId|
        #[trigger] listed(lists, x) implies loose(s, x) && created.contains(x) by {
        lemma_sublists_listed(lists, lists0, x);
        let (q, j) = choose|q: Seq<char>, j: int| #[trigger] at(lists0, q, j) && lists0[q][j] == x;
        assert(loose(s0, x));
        assert(!handles_of(built).contains(x));
        assert(s[x] == s0[x]);
    }
    lemma_scattered_sublists(s0, lists0, s, lists);
    // fewer lists than at the start
    assert(lists.dom().subset_of(rest0.dom()));
    lemma_len_subset(lists.dom(), rest0.dom());
    assert(rest0.dom() =~= lists0.dom().remove(path));
    // the sizes still add up
    lemma_kept_weights(s0, s, created, Set::full());
}

/// A child that is no directory is a tree by itself.
proof fn lemma_step_leaf(
    s0: Map<NodeId, Slot>,
    lists0: Lists,
    current: NodeId,
    created: Seq<NodeId>,
    ctx: Context,
    k: int,
    s: Map<NodeId, Slot>,
    lists: Lists,
    built: Seq<Branch>,
)
    requires
        ready(s0, lists0, current, created),
        lists0.dom().contains(s0[current].data.entry().path@),
        progress(
            s0,
            lists0.remove(s0[current].data.entry().path@),
            lists0[s0[current].data.entry().path@],
            k,
            s,
            lists,
            built,
            created,
            ctx,
        ),
        k < lists0[s0[current].data.entry().path@].len(),
        !s[lists0[s0[current].data.entry().path@][k]].data.spec_is_dir(),
    ensures
        progress(
            s0,
            lists0.remove(s0[current].data.entry().path@),
            lists0[s0[current].data.entry().path@],
            k + 1,
            s,
            lists,
            built.push(twig(s, lists0[s0[current].data.entry().path@][k])),
            created,
            ctx,
        ),
{
    let path = s0[current].data.entry().path@;
    let rest0 = lists0.remove(path);
    let children = lists0[path];
    let child = children[k];
    let leaf = twig(s, child);
    let built2 = built.push(leaf);
    lemma_child_ready(s0, lists0, current, created, ctx, k, s, lists, built);
    assert(handles_of(leaf.children) =~= Seq::empty());
    assert(leaf.handles() =~= seq![child]);
    assert(leaf.child_ids() =~= s[child].children);
    assert(represents(s, leaf));
    lemma_push_built(children, k, built, leaf, rest0, lists, lists);
    assert(shapes_of(leaf.children) =~= Seq::empty());
    assert forall|j: int| 0 <= j < k + 1 implies {
        &&& (#[trigger] built2[j]).id == children[j]
        &&& represents(s, built2[j])
        &&& s[children[j]].parent is None
        &&& built2[j].shape().aggregated(ctx)
        &&& built2[j].shape().weight() == built2[j].node.spec_bytes()
    } by {
        if j < k {
            assert(built2[j] == built[j]);
        }
    }
    // what the lists give
    lemma_pending_nodes_remove(s0, rest0, path);
    lemma_pending_nodes_remove(s, lists, path);
    assert(pending_nodes(s, lists).dom().subset_of(pending_nodes(s0, rest0).dom()));
    assert(built2.drop_last() == built);
    assert(shapes_of(leaf.children) =~= Seq::empty());
    assert(leaf.shape() == Shape::leaf(s0[child].data));
    assert(nodes_of(s0, children)[k] == s0[child].data);
    // the sizes
    lemma_mass_single(s, created, child);
    assert(leaf.handles().to_set() =~= set![child]) by {
        assert(leaf.handles()[0] == child);
    }
    lemma_sum_push(built, leaf, s, s, created);
}

/// Another tree among those that are built: its handles are new ones.
proof fn lemma_push_built(
    children: Seq<NodeId>,
    k: int,
    built: Seq<Branch>,
    branch: Branch,
    rest0: Lists,
    lists: Lists,
    lists2: Lists,
)
    requires
        0 <= k < children.len(),
        built.len() == k,
        separate(built),
        branch.id == children[k],
        branch.handles().no_duplicates(),
        sublists(lists2, lists),
        sublists(lists, rest0),
        !listed(lists, children[k]),
        !handles_of(built).contains(children[k]),
        forall|x: NodeId| #[trigger]
            handles_of(built).contains(x) ==> !listed(lists, x) && (is_one_of(children, k, x) || listed(
                rest0,
                x,
            )),
        forall|x: NodeId| #[trigger]
            branch.handles().contains(x) ==> x == children[k] || (listed(lists, x) && !listed(lists2, x)),
    ensures
        separate(built.push(branch)),
        forall|x: NodeId| #[trigger]
            handles_of(built.push(branch)).contains(x) ==> !listed(lists2, x) && (is_one_of(
                children,
                k + 1,
                x,
            ) || listed(rest0, x)),
        forall|x: NodeId|
            handles_of(built.push(branch)).contains(x) <==> handles_of(built).contains(x)
                || branch.handles().contains(x),
        forall|x: NodeId| !(handles_of(built).contains(x) && branch.handles().contains(x)),
{
    let built2 = built.push(branch);
    assert(built2.drop_last() == built);
    assert forall|x: NodeId|
        handles_of(built2).contains(x) <==> handles_of(built).contains(x)
            || branch.handles().contains(x) by {
        let a = handles_of(built);
        let b = branch.handles();
        assert(handles_of(built2) == a + b);
        if (a + b).contains(x) {
            let i = choose|i: int| 0 <= i < (a + b).len() && (a + b)[i] == x;
            if i < a.len() {
                assert(a[i] == x);
            } else {
                assert(b[i - a.len()] == x);
            }
        }
        if a.contains(x) {
            let i = choose|i: int| 0 <= i < a.len() && a[i] == x;
            assert((a + b)[i] == x);
        }
        if b.contains(x) {
            let i = choose|i: int| 0 <= i < b.len() && b[i] == x;
            assert((a + b)[a.len() + i] == x);
        }
    }
    assert forall|x: NodeId| !(handles_of(built).contains(x) && branch.handles().contains(x)) by {
        if handles_of(built).contains(x) && branch.handles().contains(x) {
            assert(!listed(lists, x));
        }
    }
    assert forall|x: NodeId|
        #[trigger] handles_of(built2).contains(x) implies !listed(lists2, x) && (
    is_one_of(children, k + 1, x) || listed(rest0, x)) by {
        if handles_of(built).contains(x) {
            if listed(lists2, x) {
                lemma_sublists_listed(lists2, lists, x);
            }
            if is_one_of(children, k, x) {
                let j = choose|j: int|
                    0 <= j < k && j < children.len() && #[trigger] children[j] == x;
                assert(children[j] == x);
            }
        } else {
            if x == children[k] {
                if listed(lists2, x) {
                    lemma_sublists_listed(lists2, lists, x);
                }
                assert(children[k] == x);
            } else {
                lemma_sublists_listed(lists, rest0, x);
            }
        }
    }
    assert(separate(built2)) by {
        assert forall|i: int| 0 <= i < built2.len() implies (
        #[trigger] built2[i]).handles().no_duplicates() by {
            if i < k {
                assert(built2[i] == built[i]);
            }
        }
        assert forall|i: int, j: int, x: NodeId|
            #![trigger holds(built2[i], x), holds(built2[j], x)]
            0 <= i < built2.len() && 0 <= j < built2.len() && i != j && holds(
                built2[i],
                x,
            ) implies !holds(built2[j], x) by {
            if holds(built2[j], x) {
                if i < k && j < k {
                    assert(built2[i] == built[i]);
                    assert(built2[j] == built[j]);
                    assert(holds(built[i], x));
                    assert(!holds(built[j], x));
                } else {
                    let lo = if i < j {
                        i
                    } else {
                        j
                    };
                    assert(built2[lo] == built[lo]);
                    assert(built[lo].handles().contains(x));
                    lemma_handles_of_contains(built, x);
                    assert(handles_of(built).contains(x));
                    assert(branch.handles().contains(x));
                }
            }
        }
    }
}

/// One more tree adds the size of its top to the sum, and its mass to the mass.
proof fn lemma_sum_push(
    built: Seq<Branch>,
    branch: Branch,
    s: Map<NodeId, Slot>,
    s2: Map<NodeId, Slot>,
    created: Seq<NodeId>,
)
    requires
        kept_entries(s, s2),
        forall|i: int| 0 <= i < created.len() ==> s.dom().contains(#[trigger] created[i]),
        sum_bytes(tops(shapes_of(built))) == mass(s, created, handles_of(built).to_set()),
        branch.node.spec_bytes() == mass(s2, created, branch.handles().to_set()),
        forall|x: NodeId| !(handles_of(built).contains(x) && branch.handles().contains(x)),
    ensures
        sum_bytes(tops(shapes_of(built.push(branch)))) == sum_bytes(tops(shapes_of(built)))
            + branch.node.spec_bytes(),
        sum_bytes(tops(shapes_of(built.push(branch)))) == mass(
            s2,
            created,
            handles_of(built.push(branch)).to_set(),
        ),
{
    let built2 = built.push(branch);
    assert(built2.drop_last() == built);
    lemma_shapes_of(built);
    lemma_shapes_of(built2);
    let t2 = tops(shapes_of(built2));
    assert(t2.drop_last() =~= tops(shapes_of(built)));
    assert(t2.last() == branch.node);
    let a = handles_of(built).to_set();
    let b = branch.handles().to_set();
    lemma_kept_weights(s, s2, created, a);
    assert(handles_of(built2) == handles_of(built) + branch.handles());
    assert(handles_of(built2).to_set() =~= a.union(b)) by {
        assert forall|x: NodeId| handles_of(built2).to_set().contains(x) <==> a.union(b).contains(
            x,
        ) by {
            let u = handles_of(built);
            let v = branch.handles();
            if (u + v).contains(x) {
                let i = choose|i: int| 0 <= i < (u + v).len() && (u + v)[i] == x;
                if i < u.len() {
                    assert(u[i] == x);
                } else {
                    assert(v[i - u.len()] == x);
                }
            }
            if u.contains(x) {
                let i = choose|i: int| 0 <= i < u.len() && u[i] == x;
                assert((u + v)[i] == x);
            }
            if v.contains(x) {
                let i = choose|i: int| 0 <= i < v.len() && v[i] == x;
                assert((u + v)[u.len() + i] == x);
            }
        }
    }
    assert(a.disjoint(b));
    lemma_mass_union(s2, created, a, b);
}

/// A child that is a directory has been assembled: its tree joins those that
/// are built.
proof fn lemma_step_dir(
    s0: Map<NodeId, Slot>,
    lists0: Lists,
    current: NodeId,
    created: Seq<NodeId>,
    ctx: Context,
    k: int,
    s: Map<NodeId, Slot>,
    lists: Lists,
    built: Seq<Branch>,
    s2: Map<NodeId, Slot>,
    lists2: Lists,
    branch: Branch,
)
    requires
        ready(s0, lists0, current, created),
        lists0.dom().contains(s0[current].data.entry().path@),
        progress(
            s0,
            lists0.remove(s0[current].data.entry().path@),
            lists0[s0[current].data.entry().path@],
            k,
            s,
            lists,
            built,
            created,
            ctx,
        ),
        k < lists0[s0[current].data.entry().path@].len(),
        s[lists0[s0[current].data.entry().path@][k]].data.spec_is_dir(),
        assembled(s, lists, s2, lists2, lists0[s0[current].data.entry().path@][k], created, ctx, branch),
        lists2.dom().finite(),
    ensures
        progress(
            s0,
            lists0.remove(s0[current].data.entry().path@),
            lists0[s0[current].data.entry().path@],
            k + 1,
            s2,
            lists2,
            built.push(branch),
            created,
            ctx,
        ),
{
    let path = s0[current].data.entry().path@;
    let rest0 = lists0.remove(path);
    let children = lists0[path];
    let child = children[k];
    let built2 = built.push(branch);
    lemma_child_ready(s0, lists0, current, created, ctx, k, s, lists, built);
    lemma_push_built(children, k, built, branch, rest0, lists, lists2);
    assert forall|j: int| 0 <= j < k + 1 implies {
        &&& (#[trigger] built2[j]).id == children[j]
        &&& represents(s2, built2[j])
        &&& s2[children[j]].parent is None
        &&& built2[j].shape().aggregated(ctx)
        &&& built2[j].shape().weight() == built2[j].node.spec_bytes()
    } by {
        if j < k {
            assert(built2[j] == built[j]);
            let old = built[j];
            assert(old.handles()[0] == old.id);
            assert(old.handles().contains(old.id));
            assert forall|x: NodeId|
                #[trigger] old.handles().contains(x) implies s.dom().contains(x)
                && s2[x] == s[x] by {
                lemma_handles_of_contains(built, x);
                lemma_represents_live(s, old, x);
            }
            lemma_represents_frame(s, s2, old);
        }
    }
    // what the lists give
    lemma_pending_nodes_remove(s0, rest0, path);
    lemma_pending_nodes_remove(s, lists, path);
    assert(pending_nodes(s, lists).dom().subset_of(pending_nodes(s0, rest0).dom()));
    assert(built2.drop_last() == built);
    assert(nodes_of(s0, children)[k] == s[child].data);
    // the sizes
    lemma_sum_push(built, branch, s, s2, created);
}

/// A child that cannot be assembled fails the directory.
proof fn lemma_step_fails(
    s0: Map<NodeId, Slot>,
    lists0: Lists,
    current: NodeId,
    created: Seq<NodeId>,
    ctx: Context,
    k: int,
    s: Map<NodeId, Slot>,
    lists: Lists,
    built: Seq<Branch>,
)
    requires
        ready(s0, lists0, current, created),
        lists0.dom().contains(s0[current].data.entry().path@),
        progress(
            s0,
            lists0.remove(s0[current].data.entry().path@),
            lists0[s0[current].data.entry().path@],
            k,
            s,
            lists,
            built,
            created,
            ctx,
        ),
        k < lists0[s0[current].data.entry().path@].len(),
        s[lists0[s0[current].data.entry().path@][k]].data.spec_is_dir(),
        assemble(pending_nodes(s, lists), s[lists0[s0[current].data.entry().path@][k]].data, ctx) is None,
    ensures
        assemble(pending_nodes(s0, lists0), s0[current].data, ctx) is None,
{
    let path = s0[current].data.entry().path@;
    let rest0 = lists0.remove(path);
    let children = lists0[path];
    let child = children[k];
    lemma_child_ready(s0, lists0, current, created, ctx, k, s, lists, built);
    lemma_pending_nodes_remove(s0, lists0, path);
    lemma_pending_nodes_remove(s0, rest0, path);
    lemma_pending_nodes_remove(s, lists, path);
    assert(pending_nodes(s, lists).dom().subset_of(pending_nodes(s0, rest0).dom()));
    assert(nodes_of(s0, children)[k] == s[child].data);
    let pv = pending_nodes(s0, rest0);
    let kids = nodes_of(s0, children);
    assert(assemble_first(pv, kids, (k + 1) as nat, ctx) is None);
    lemma_first_fails(pv, kids, (k + 1) as nat, kids.len(), ctx);
    assert(pending_nodes(s0, lists0)[path] == kids);
}

/// Once the first children cannot be assembled, more of them cannot either.
proof fn lemma_first_fails(
    pending: crate::model::Pending,
    kids: Seq<Node>,
    n: nat,
    m: nat,
    ctx: Context,
)
    requires
        pending.dom().finite(),
        n <= m,
        assemble_first(pending, kids, n, ctx) is None,
    ensures
        assemble_first(pending, kids, m, ctx) is None,
    decreases m,
{
    if n < m {
        lemma_first_fails(pending, kids, n, (m - 1) as nat, ctx);
    }
}

/// Trees in another order are the same trees: they share no handle, have the
/// same handles, and their values stand in that other order.
proof fn lemma_arranged(built: Seq<Branch>, order: Seq<int>)
    requires
        separate(built),
        is_permutation(order, built.len()),
    ensures
        separate(arrange(built, order)),
        forall|x: NodeId|
            handles_of(arrange(built, order)).contains(x) <==> handles_of(built).contains(x),
        shapes_of(arrange(built, order)) == arrange(shapes_of(built), order),
{
    let moved = arrange(built, order);
    assert forall|i: int, j: int, x: NodeId|
        #![trigger holds(moved[i], x), holds(moved[j], x)]
        0 <= i < moved.len() && 0 <= j < moved.len() && i != j && holds(moved[i], x) implies !holds(
        moved[j],
        x,
    ) by {
        assert(order[i] != order[j]);
        assert(holds(built[order[i]], x));
        assert(!holds(built[order[j]], x));
    }
    assert forall|x: NodeId| handles_of(moved).contains(x) <==> handles_of(built).contains(x) by {
        lemma_handles_of_contains(moved, x);
        lemma_handles_of_contains(built, x);
        if handles_of(moved).contains(x) {
            let i = choose|i: int|
                0 <= i < moved.len() && (#[trigger] moved[i]).handles().contains(x);
            assert(built[order[i]].handles().contains(x));
        }
        if handles_of(built).contains(x) {
            let i = choose|i: int|
                0 <= i < built.len() && (#[trigger] built[i]).handles().contains(x);
            assert(order.contains(i));
            let m = choose|m: int| 0 <= m < order.len() && order[m] == i;
            assert(moved[m].handles().contains(x));
        }
    }
    lemma_shapes_of(moved);
    lemma_shapes_of(built);
    assert forall|i: int| 0 <= i < moved.len() implies shapes_of(moved)[i] == arrange(
        shapes_of(built),
        order,
    )[i] by {
        assert(moved[i] == built[order[i]]);
        assert(shapes_of(moved)[i] == moved[i].shape());
        assert(shapes_of(built)[order[i]] == built[order[i]].shape());
    }
    assert(shapes_of(moved) =~= arrange(shapes_of(built), order));
}

/// Whether the first `m` handles of `sorted` have been hung below `current`,
/// in their order, and nothing else has changed.
pub open spec fn hung(
    s1: Map<NodeId, Slot>,
    s2: Map<NodeId, Slot>,
    current: NodeId,
    sorted: Seq<NodeId>,
    m: int,
) -> bool {
    &&& 0 <= m <= sorted.len()
    &&& s2.dom() == s1.dom()
    &&& s2[current] == Slot { children: sorted.take(m), ..s1[current] }
    &&& forall|j: int|
        0 <= j < m ==> s2[#[trigger] sorted[j]] == Slot { parent: Some(current), ..s1[sorted[j]] }
    &&& forall|x: NodeId|
        s1.dom().contains(x) && x != current && !is_one_of(sorted, m, x) ==> #[trigger] s2[x]
            == s1[x]
}

/// Hanging one more handle below `current`.
proof fn lemma_hang(
    s1: Map<NodeId, Slot>,
    s2: Map<NodeId, Slot>,
    current: NodeId,
    sorted: Seq<NodeId>,
    m: int,
    s3: Map<NodeId, Slot>,
)
    requires
        hung(s1, s2, current, sorted, m),
        m < sorted.len(),
        sorted.no_duplicates(),
        s1.dom().contains(current),
        forall|j: int| 0 <= j < sorted.len() ==> s1.dom().contains(#[trigger] sorted[j]),
        forall|j: int| 0 <= j < sorted.len() ==> #[trigger] sorted[j] != current,
        s3 == s2.insert(
            current,
            Slot { children: s2[current].children.push(sorted[m]), ..s2[current] },
        ).insert(sorted[m], Slot { parent: Some(current), ..s2[sorted[m]] }),
    ensures
        hung(s1, s3, current, sorted, m + 1),
        s2[sorted[m]] == s1[sorted[m]],
{
    let child = sorted[m];
    if is_one_of(sorted, m, child) {
        let j = choose|j: int| 0 <= j < m && j < sorted.len() && #[trigger] sorted[j] == child;
        assert(false);
    }
    assert(s3.dom() =~= s1.dom());
    assert(sorted.take(m).push(child) =~= sorted.take(m + 1));
    assert forall|j: int| 0 <= j < m + 1 implies s3[#[trigger] sorted[j]] == Slot {
        parent: Some(current),
        ..s1[sorted[j]]
    } by {
        if j < m {
            assert(sorted[j] != child);
        }
    }
    assert forall|x: NodeId|
        s1.dom().contains(x) && x != current && !is_one_of(sorted, m + 1, x) implies #[trigger] s3[x]
        == s1[x] by {
        if is_one_of(sorted, m, x) {
            let j = choose|j: int| 0 <= j < m && j < sorted.len() && #[trigger] sorted[j] == x;
            assert(sorted[j] == x);
            assert(is_one_of(sorted, m + 1, x));
        }
        assert(sorted[m] == child);
    }
}

/// The arena after the directory under `current` has been given the sum
/// `total` as its size, unless the sum is zero.
pub open spec fn with_total(
    s: Map<NodeId, Slot>,
    current: NodeId,
    total: nat,
    ctx: Context,
) -> Map<NodeId, Slot> {
    if total > 0 {
        s.insert(
            current,
            Slot {
                data: s[current].data.with_size(Some(FileSize::of(total as u64, ctx))),
                ..s[current]
            },
        )
    } else {
        s
    }
}

/// What is known when all children of the directory are done.
proof fn lemma_children_done(
    s0: Map<NodeId, Slot>,
    lists0: Lists,
    current: NodeId,
    created: Seq<NodeId>,
    ctx: Context,
    s: Map<NodeId, Slot>,
    lists: Lists,
    built: Seq<Branch>,
)
    requires
        ready(s0, lists0, current, created),
        lists0.dom().contains(s0[current].data.entry().path@),
        progress(
            s0,
            lists0.remove(s0[current].data.entry().path@),
            lists0[s0[current].data.entry().path@],
            lists0[s0[current].data.entry().path@].len() as int,
            s,
            lists,
            built,
            created,
            ctx,
        ),
    ensures
        ({
            let children = lists0[s0[current].data.entry().path@];
            &&& !handles_of(built).contains(current)
            &&& s[current] == s0[current]
            &&& children.no_duplicates()
            &&& forall|j: int|
                0 <= j < children.len() ==> {
                    &&& s.dom().contains(#[trigger] children[j])
                    &&& children[j] != current
                    &&& !listed(lists, children[j])
                    &&& listed(lists0, children[j])
                    &&& handles_of(built).contains(children[j])
                }
            &&& !listed(lists, current)
            &&& sublists(lists, lists0)
            &&& sum_bytes(tops(shapes_of(built))) <= u64::MAX
            &&& nodes_of(s, children) == tops(shapes_of(built))
            &&& forall|x: NodeId| #[trigger]
                handles_of(built).contains(x) ==> s.dom().contains(x) && listed(lists0, x)
        }),
{
    let path = s0[current].data.entry().path@;
    let rest0 = lists0.remove(path);
    let children = lists0[path];
    let n = children.len() as int;
    assert(sublists(rest0, lists0));
    if handles_of(built).contains(current) {
        if is_one_of(children, n, current) {
            let j = choose|j: int|
                0 <= j < n && j < children.len() && #[trigger] children[j] == current;
            assert(at(lists0, path, j));
            assert(listed(lists0, current));
        } else {
            lemma_sublists_listed(rest0, lists0, current);
        }
        assert(false);
    }
    assert forall|i: int, j: int|
        0 <= i < children.len() && 0 <= j < children.len() && i != j implies children[i]
        != children[j] by {
        assert(at(lists0, path, i));
        assert(at(lists0, path, j));
    }
    assert forall|j: int| 0 <= j < children.len() implies {
        &&& s.dom().contains(#[trigger] children[j])
        &&& children[j] != current
        &&& !listed(lists, children[j])
        &&& listed(lists0, children[j])
        &&& handles_of(built).contains(children[j])
    } by {
        assert(at(lists0, path, j));
        assert(loose(s0, children[j]));
        lemma_listed_once(s0, lists0, path, j);
        if listed(lists, children[j]) {
            lemma_sublists_listed(lists, rest0, children[j]);
        }
        assert(built[j].id == children[j]);
        assert(built[j].handles()[0] == children[j]);
        assert(built[j].handles().contains(children[j]));
        lemma_handles_of_contains(built, children[j]);
    }
    if listed(lists, current) {
        lemma_sublists_listed(lists, lists0, current);
    }
    lemma_kept_weights(s0, s, created, Set::full());
    lemma_mass_subset(s, created, handles_of(built).to_set(), Set::full());
    lemma_shapes_of(built);
    assert(nodes_of(s, children) =~= tops(shapes_of(built))) by {
        assert forall|j: int| 0 <= j < children.len() implies nodes_of(s, children)[j] == tops(
            shapes_of(built),
        )[j] by {
            assert(built[j].id == children[j]);
            assert(shapes_of(built)[j] == built[j].shape());
        }
    }
    assert forall|x: NodeId| #[trigger] handles_of(built).contains(x) implies s.dom().contains(x)
        && listed(lists0, x) by {
        lemma_handles_of_contains(built, x);
        let i = choose|i: int| 0 <= i < built.len() && (#[trigger] built[i]).handles().contains(x);
        lemma_represents_live(s, built[i], x);
        if is_one_of(children, n, x) {
            let j = choose|j: int| 0 <= j < n && j < children.len() && #[trigger] children[j] == x;
            assert(at(lists0, path, j));
        } else {
            lemma_sublists_listed(rest0, lists0, x);
        }
    }
}

/// The tree of the directory, once its children are done, it has its size, and
/// the children hang below it in their final order.
pub open spec fn crown(
    s1: Map<NodeId, Slot>,
    current: NodeId,
    built: Seq<Branch>,
    order: Seq<int>,
) -> Branch {
    Branch { id: current, node: s1[current].data, children: arrange(built, order) }
}

/// When the children are done, the size is set and the children are hung in
/// order, the directory is assembled.
proof fn lemma_finish(
    s0: Map<NodeId, Slot>,
    lists0: Lists,
    current: NodeId,
    created: Seq<NodeId>,
    ctx: Context,
    s: Map<NodeId, Slot>,
    lists: Lists,
    built: Seq<Branch>,
    s1: Map<NodeId, Slot>,
    order: Seq<int>,
    s2: Map<NodeId, Slot>,
)
    requires
        ready(s0, lists0, current, created),
        lists0.dom().contains(s0[current].data.entry().path@),
        progress(
            s0,
            lists0.remove(s0[current].data.entry().path@),
            lists0[s0[current].data.entry().path@],
            lists0[s0[current].data.entry().path@].len() as int,
            s,
            lists,
            built,
            created,
            ctx,
        ),
        s1 == with_total(s, current, sum_bytes(tops(shapes_of(built))), ctx),
        order == sort_order(
            nodes_of(s1, lists0[s0[current].data.entry().path@]),
            ctx.sort,
            ctx.direction,
        ),
        hung(
            s1,
            s2,
            current,
            arrange(lists0[s0[current].data.entry().path@], order),
            lists0[s0[current].data.entry().path@].len() as int,
        ),
    ensures
        assembled(s0, lists0, s2, lists, current, created, ctx, crown(s1, current, built, order)),
{
    let path = s0[current].data.entry().path@;
    let rest0 = lists0.remove(path);
    let children = lists0[path];
    let n = children.len() as int;
    let total = sum_bytes(tops(shapes_of(built)));
    let sorted = arrange(children, order);
    let top = crown(s1, current, built, order);
    let moved = arrange(built, order);
    broadcast use Node::parts;

    lemma_children_done(s0, lists0, current, created, ctx, s, lists, built);
    assert(nodes_of(s1, children) =~= nodes_of(s, children));
    lemma_sort_order_permutation(nodes_of(s1, children), ctx.sort, ctx.direction);
    lemma_arranged(built, order);
    assert(sorted.take(n) =~= sorted);
    assert(top.handles() == seq![current] + handles_of(moved));

    // the handles of the tree
    assert forall|x: NodeId| top.handles().contains(x) <==> x == current || handles_of(
        built,
    ).contains(x) by {
        let rest = handles_of(moved);
        if top.handles().contains(x) {
            let i = choose|i: int| 0 <= i < top.handles().len() && top.handles()[i] == x;
            if i > 0 {
                assert(rest[i - 1] == x);
            }
        }
        if rest.contains(x) {
            let i = choose|i: int| 0 <= i < rest.len() && rest[i] == x;
            assert(top.handles()[i + 1] == x);
        }
        assert(top.handles()[0] == current);
    }
    assert(top.handles().no_duplicates()) by {
        lemma_separate_handles(moved);
        let rest = handles_of(moved);
        assert forall|i: int, j: int|
            0 <= i < top.handles().len() && 0 <= j < top.handles().len() && i != j implies top.handles()[i]
            != top.handles()[j] by {
            if i > 0 {
                assert(rest[i - 1] == top.handles()[i]);
                assert(rest.contains(top.handles()[i]));
            }
            if j > 0 {
                assert(rest[j - 1] == top.handles()[j]);
                assert(rest.contains(top.handles()[j]));
            }
        }
    }

    // a handle among the sorted ones is the top of one of the trees
    assert forall|x: NodeId| is_one_of(sorted, n, x) implies handles_of(built).contains(x) by {
        let j = choose|j: int| 0 <= j < n && j < sorted.len() && #[trigger] sorted[j] == x;
        assert(sorted[j] == children[order[j]]);
    }

    // the arena holds the tree
    assert(represents(s2, top)) by {
        assert(top.child_ids() =~= sorted) by {
            assert forall|m: int| 0 <= m < sorted.len() implies top.child_ids()[m] == sorted[m] by {
                assert(moved[m] == built[order[m]]);
            }
        }
        assert forall|m: int| 0 <= m < top.children.len() implies {
            &&& s2.dom().contains(#[trigger] top.children[m].id)
            &&& s2[top.children[m].id].parent == Some(top.id)
            &&& represents(s2, top.children[m])
        } by {
            let below = built[order[m]];
            assert(moved[m] == below);
            assert(below.id == children[order[m]]);
            assert(sorted[m] == below.id);
            assert(s2[sorted[m]] == Slot { parent: Some(current), ..s1[sorted[m]] });
            assert forall|x: NodeId| #[trigger] below.handles().contains(x) implies {
                &&& s2.dom().contains(x)
                &&& s2[x].data == s[x].data
                &&& s2[x].children == s[x].children
                &&& x != below.id ==> s2[x].parent == s[x].parent
            } by {
                lemma_handles_of_contains(built, x);
                assert(handles_of(built).contains(x));
                assert(x != current);
                assert(s1[x] == s[x]);
                if is_one_of(sorted, n, x) {
                    let j = choose|j: int|
                        0 <= j < n && j < sorted.len() && #[trigger] sorted[j] == x;
                    assert(sorted[j] == children[order[j]]);
                    let other = built[order[j]];
                    assert(other.id == x);
                    assert(other.handles()[0] == x);
                    assert(holds(other, x));
                    assert(holds(below, x));
                    assert(order[j] == order[m]);
                    assert(s2[sorted[j]] == Slot { parent: Some(current), ..s1[sorted[j]] });
                }
            }
            lemma_represents_frame(s, s2, below);
        }
    }

    // what the lists give
    lemma_pending_nodes_remove(s0, lists0, path);
    lemma_pending_nodes_remove(s0, rest0, path);
    assert(pending_nodes(s0, lists0)[path] == nodes_of(s0, children));
    assert(top.shape() == joined(s0[current].data, shapes_of(built), ctx)) by {
        assert(nodes_of(s1, children) == tops(shapes_of(built)));
    }
    assert(pending_nodes(s2, lists) =~= pending_nodes(s, lists)) by {
        assert forall|q: Seq<char>|
            #[trigger] lists.dom().contains(q) implies nodes_of(s2, lists[q])
            == nodes_of(s, lists[q]) by {
            assert forall|i: int|
                0 <= i < lists[q].len() implies s2[lists[q][i]] == s[lists[q][i]] by {
                let x = lists[q][i];
                assert(at(lists, q, i));
                assert(listed(lists, x));
                lemma_sublists_listed(lists, lists0, x);
                let (q0, i0) = choose|q0: Seq<char>, i0: int| #[trigger]
                    at(lists0, q0, i0) && lists0[q0][i0] == x;
                assert(loose(s0, x));
                assert(!handles_of(built).contains(x));
                assert(!is_one_of(sorted, n, x));
            }
            assert(nodes_of(s2, lists[q]) =~= nodes_of(s, lists[q]));
        }
    }

    // every node outside the tree is as it was
    assert forall|x: NodeId|
        s0.dom().contains(x) && !top.handles().contains(x) implies #[trigger] s2[x]
        == s0[x] by {
        assert(!is_one_of(sorted, n, x));
    }
    assert(kept_entries(s0, s2)) by {
        assert(s1.dom() =~= s.dom());
        assert forall|x: NodeId| #[trigger] s0.dom().contains(x) implies {
            &&& s2[x].data.entry() == s0[x].data.entry()
            &&& !s0[x].data.spec_is_dir() ==> s2[x].data == s0[x].data
        } by {
            if x == current {
            } else if is_one_of(sorted, n, x) {
                let j = choose|j: int| 0 <= j < n && j < sorted.len() && #[trigger] sorted[j] == x;
                assert(s2[sorted[j]] == Slot { parent: Some(current), ..s1[sorted[j]] });
            }
        }
    }
    assert forall|x: NodeId| #[trigger] top.handles().contains(x) implies x == current || (listed(
        lists0,
        x,
    ) && !listed(lists, x)) by {}

    // the sizes
    lemma_finish_bytes(s0, current, created, ctx, s, built, s1, s2, top.handles());
    lemma_finish_weight(built, order, top, ctx);
}

/// The weight of the assembled directory is the sum of the sizes of its
/// children, and every directory in its tree carries its weight as its size.
proof fn lemma_finish_weight(built: Seq<Branch>, order: Seq<int>, top: Branch, ctx: Context)
    requires
        is_permutation(order, built.len()),
        top.children == arrange(built, order),
        top.node.spec_is_dir(),
        sum_bytes(tops(shapes_of(built))) <= u64::MAX,
        top.node.size() == FileSize::sized(sum_bytes(tops(shapes_of(built))), ctx),
        forall|j: int|
            0 <= j < built.len() ==> (#[trigger] built[j]).shape().aggregated(ctx)
                && built[j].shape().weight() == built[j].node.spec_bytes(),
    ensures
        top.shape().aggregated(ctx),
        top.shape().weight() == sum_bytes(tops(shapes_of(built))),
        top.shape().weight() == top.node.spec_bytes(),
{
    broadcast use Node::parts;

    let shapes = shapes_of(built);
    let moved = arrange(built, order);
    lemma_shapes_of(built);
    lemma_shapes_of(moved);
    assert(shapes_of(moved) =~= arrange(shapes, order)) by {
        assert forall|i: int| 0 <= i < moved.len() implies shapes_of(moved)[i] == arrange(
            shapes,
            order,
        )[i] by {
            assert(moved[i] == built[order[i]]);
            assert(shapes_of(moved)[i] == moved[i].shape());
            assert(shapes[order[i]] == built[order[i]].shape());
        }
    }
    lemma_weight_all_arranged(shapes, order);
    assert forall|i: int| 0 <= i < shapes.len() implies (#[trigger] shapes[i]).weight()
        == shapes[i].node.spec_bytes() by {
        assert(shapes[i] == built[i].shape());
    }
    lemma_weight_all_sum(shapes);
    assert forall|i: int| 0 <= i < top.shape().children.len() implies (
    #[trigger] top.shape().children[i]).aggregated(ctx) by {
        assert(top.shape().children[i] == moved[i].shape());
        assert(moved[i] == built[order[i]]);
    }
}

/// Where each tree weighs what its top shows as its size, the trees together
/// weigh the sum of those sizes.
proof fn lemma_weight_all_sum(shapes: Seq<Shape>)
    requires
        forall|i: int|
            0 <= i < shapes.len() ==> (#[trigger] shapes[i]).weight() == shapes[i].node.spec_bytes(),
    ensures
        weight_all(shapes) == sum_bytes(tops(shapes)),
    decreases shapes.len(),
{
    if shapes.len() > 0 {
        let front = shapes.drop_last();
        assert forall|i: int| 0 <= i < front.len() implies (#[trigger] front[i]).weight()
            == front[i].node.spec_bytes() by {
            assert(front[i] == shapes[i]);
        }
        lemma_weight_all_sum(front);
        assert(tops(shapes).drop_last() =~= tops(front));
        assert(tops(shapes).last() == shapes.last().node);
        assert(shapes[shapes.len() - 1] == shapes.last());
    }
}

/// The size of the assembled directory is the mass of its tree.
proof fn lemma_finish_bytes(
    s0: Map<NodeId, Slot>,
    current: NodeId,
    created: Seq<NodeId>,
    ctx: Context,
    s: Map<NodeId, Slot>,
    built: Seq<Branch>,
    s1: Map<NodeId, Slot>,
    s2: Map<NodeId, Slot>,
    handles: Seq<NodeId>,
)
    requires
        loose(s0, current),
        s0[current].data.spec_is_dir(),
        created.no_duplicates(),
        created.contains(current),
        forall|i: int| 0 <= i < created.len() ==> s0.dom().contains(#[trigger] created[i]),
        kept_entries(s0, s),
        kept_entries(s0, s2),
        s[current] == s0[current],
        !handles_of(built).contains(current),
        sum_bytes(tops(shapes_of(built))) == mass(s, created, handles_of(built).to_set()),
        sum_bytes(tops(shapes_of(built))) <= u64::MAX,
        s1 == with_total(s, current, sum_bytes(tops(shapes_of(built))), ctx),
        s2[current].data == s1[current].data,
        forall|x: NodeId| handles.contains(x) <==> x == current || handles_of(built).contains(x),
    ensures
        s2[current].data.spec_bytes() == mass(s2, created, handles.to_set()),
{
    broadcast use Node::parts;

    let total = sum_bytes(tops(shapes_of(built)));
    let below = handles_of(built).to_set();
    assert(handles.to_set() =~= set![current].union(below));
    assert(set![current].disjoint(below));
    lemma_mass_union(s2, created, set![current], below);
    lemma_mass_single(s2, created, current);
    assert(weight(s2, current) == 0);
    lemma_kept_weights(s0, s, created, below);
    lemma_kept_weights(s0, s2, created, below);
}

impl Tree {
    /// Assembles the tree of the directory under `current` from the lists of
    /// children in `branches`.
    ///
    /// The directory takes its list out of `branches`. Its children are done
    /// first to last, each directory among them in the same way. Then the
    /// directory gets the sum of their sizes as its size, unless the sum is zero,
    /// and the children are hung below it in the order that `ctx` asks for.
    /// Fails if a directory is reached whose list is not in `branches`.
    pub(crate) fn assemble_tree(
        arena: &mut Arena<Node>,
        current: NodeId,
        branches: &mut Branches,
        ctx: &Context,
        Ghost(created): Ghost<Seq<NodeId>>,
    ) -> (done: Result<(), Error>)
        requires
            old(branches).wf(),
            ready(arena_slots(*old(arena)), old(branches)@, current, created),
        ensures
            final(branches).wf(),
            match done {
                Ok(()) => exists|branch: Branch|
                    assembled(
                        arena_slots(*old(arena)),
                        old(branches)@,
                        arena_slots(*final(arena)),
                        final(branches)@,
                        current,
                        created,
                        *ctx,
                        branch,
                    ),
                Err(error) => error == Error::MissingBranch && assemble(
                    pending_nodes(arena_slots(*old(arena)), old(branches)@),
                    arena_slots(*old(arena))[current].data,
                    *ctx,
                ) is None,
            },
        decreases old(branches)@.dom().len(),
    {
        let ghost s0 = arena_slots(*arena);
        let ghost lists0 = branches@;
        let ghost path = s0[current].data.entry().path@;
        let ghost rest0 = lists0.remove(path);
        proof {
            branches.lemma_finite();
            lemma_pending_nodes_remove(s0, lists0, path);
        }
        let taken = branches.take(arena_node(arena, current).path().as_str());
        let children = match taken {
            Some(children) => children,
            None => {
                return Err(Error::MissingBranch);
            },
        };
        let mut dir_size = FileSize::new(0, ctx.disk_usage, ctx.prefix, ctx.scale);
        let ghost mut built: Seq<Branch> = Seq::empty();
        proof {
            lemma_progress_start(s0, lists0, current, created, *ctx);
            assert(shapes_of(built) =~= Seq::empty());
            assert(tops(shapes_of(built)) =~= Seq::empty());
        }
        let mut k: usize = 0;
        while k < children.len()
            invariant
                branches.wf(),
                s0 == arena_slots(*old(arena)),
                lists0 == old(branches)@,
                ready(s0, lists0, current, created),
                path == s0[current].data.entry().path@,
                lists0.dom().contains(path),
                rest0 == lists0.remove(path),
                children@ == lists0[path],
                lists0.dom().finite(),
                progress(
                    s0,
                    rest0,
                    children@,
                    k as int,
                    arena_slots(*arena),
                    branches@,
                    built,
                    created,
                    *ctx,
                ),
                dir_size == FileSize::of(sum_bytes(tops(shapes_of(built))) as u64, *ctx),
                sum_bytes(tops(shapes_of(built))) <= u64::MAX,
            decreases children.len() - k,
        {
            let child = children[k];
            let ghost s = arena_slots(*arena);
            let ghost lists = branches@;
            proof {
                lemma_child_ready(s0, lists0, current, created, *ctx, k as int, s, lists, built);
            }
            let is_dir = arena_node(arena, child).is_dir();
            if is_dir {
                match Tree::assemble_tree(arena, child, branches, ctx, Ghost(created)) {
                    Ok(()) => {
                        proof {
                            let s2 = arena_slots(*arena);
                            let lists2 = branches@;
                            let branch = choose|branch: Branch|
                                assembled(s, lists, s2, lists2, child, created, *ctx, branch);
                            branches.lemma_finite();
                            lemma_step_dir(
                                s0,
                                lists0,
                                current,
                                created,
                                *ctx,
                                k as int,
                                s,
                                lists,
                                built,
                                s2,
                                lists2,
                                branch,
                            );
                            lemma_sum_push(built, branch, s, s2, created);
                            lemma_push_built(
                                children@,
                                k as int,
                                built,
                                branch,
                                rest0,
                                lists,
                                lists2,
                            );
                            built = built.push(branch);
                        }
                    },
                    Err(error) => {
                        proof {
                            lemma_step_fails(
                                s0,
                                lists0,
                                current,
                                created,
                                *ctx,
                                k as int,
                                s,
                                lists,
                                built,
                            );
                        }
                        return Err(error);
                    },
                }
            } else {
                proof {
                    let leaf = twig(s, child);
                    lemma_step_leaf(s0, lists0, current, created, *ctx, k as int, s, lists, built);
                    assert(leaf.handles() =~= seq![child]) by {
                        assert(handles_of(leaf.children) =~= Seq::empty());
                    }
                    assert(leaf.handles().to_set() =~= set![child]) by {
                        assert(leaf.handles()[0] == child);
                    }
                    lemma_mass_single(s, created, child);
                    assert forall|x: NodeId|
                        !(handles_of(built).contains(x) && leaf.handles().contains(x)) by {
                        if leaf.handles().contains(x) {
                            assert(x == child);
                        }
                    }
                    lemma_sum_push(built, leaf, s, s, created);
                    built = built.push(leaf);
                }
            }
            proof {
                let s2 = arena_slots(*arena);
                assert(built.last().id == child);
                assert(represents(s2, built[k as int]));
                assert(s2[child].data == built.last().node);
                lemma_kept_weights(s0, s2, created, Set::full());
                lemma_mass_subset(s2, created, handles_of(built).to_set(), Set::full());
            }
            match arena_node(arena, child).file_size() {
                Some(size) => {
                    dir_size.add_bytes(size.bytes);
                },
                None => {},
            }
            k = k + 1;
        }
        let ghost s = arena_slots(*arena);
        let ghost total = sum_bytes(tops(shapes_of(built)));
        proof {
            lemma_children_done(s0, lists0, current, created, *ctx, s, branches@, built);
        }
        if dir_size.bytes > 0 {
            let node = arena_node_mut(arena, current);
            node.set_file_size(dir_size);
        }
        let ghost s1 = arena_slots(*arena);
        proof {
            assert(s1 == with_total(s, current, total, *ctx));
            assert(s1.dom() =~= s.dom());
            assert(nodes_of(s1, children@) =~= nodes_of(s, children@));
        }
        let ghost order = sort_order(nodes_of(s1, children@), ctx.sort, ctx.direction);
        let sorted = match ctx.sort {
            Some(key) => sort_children(arena, children, key, ctx.direction),
            None => {
                proof {
                    assert(children@ =~= arrange(children@, order));
                }
                children
            },
        };
        proof {
            lemma_sort_order_permutation(nodes_of(s1, children@), ctx.sort, ctx.direction);
            assert(sorted@.no_duplicates()) by {
                assert forall|i: int, j: int|
                    0 <= i < sorted@.len() && 0 <= j < sorted@.len() && i != j implies sorted@[i]
                    != sorted@[j] by {
                    assert(order[i] != order[j]);
                }
            }
            assert(sorted@.take(0) =~= s1[current].children);
            assert forall|j: int| 0 <= j < lists0[path].len() implies {
                &&& s1.dom().contains(#[trigger] lists0[path][j])
                &&& lists0[path][j] != current
                &&& s1[lists0[path][j]].parent is None
            } by {
                assert(built[j].id == lists0[path][j]);
                assert(s[lists0[path][j]].parent is None);
            }
        }
        let mut m: usize = 0;
        while m < sorted.len()
            invariant
                sorted@ == arrange(lists0[path], order),
                sorted@.len() == lists0[path].len(),
                is_permutation(order, lists0[path].len()),
                sorted@.no_duplicates(),
                s1.dom().contains(current),
                s1[current].parent is None,
                forall|j: int|
                    0 <= j < lists0[path].len() ==> {
                        &&& s1.dom().contains(#[trigger] lists0[path][j])
                        &&& lists0[path][j] != current
                        &&& s1[lists0[path][j]].parent is None
                    },
                hung(s1, arena_slots(*arena), current, sorted@, m as int),
            decreases sorted.len() - m,
        {
            let child = sorted[m];
            let ghost s2 = arena_slots(*arena);
            proof {
                assert(child == lists0[path][order[m as int]]);
                assert forall|j: int| 0 <= j < sorted@.len() implies s1.dom().contains(
                    #[trigger] sorted@[j],
                ) && sorted@[j] != current by {
                    assert(sorted@[j] == lists0[path][order[j]]);
                }
                if is_one_of(sorted@, m as int, child) {
                    let j = choose|j: int|
                        0 <= j < m && j < sorted@.len() && #[trigger] sorted@[j] == child;
                    assert(false);
                }
                assert(s2[child] == s1[child]);
            }
            arena_append(arena, current, child);
            proof {
                lemma_hang(s1, s2, current, sorted@, m as int, arena_slots(*arena));
            }
            m = m + 1;
        }
        proof {
            lemma_finish(
                s0,
                lists0,
                current,
                created,
                *ctx,
                s,
                branches@,
                built,
                s1,
                order,
                arena_slots(*arena),
            );
        }
        Ok(())
    }
}

} // verus!
