//! The arena that stores the nodes of a tree, and what the verifier is told of it.

use crate::node::Node;
use crate::shape::Shape;
use indextree::{Arena, NodeId};
use vstd::prelude::*;

verus! {

/// The arena of `indextree`; the verifier does not look inside.
#[verifier::external_type_specification]
#[verifier::external_body]
#[verifier::reject_recursive_types(T)]
pub struct ExArena<T>(Arena<T>);

/// A handle of `indextree`; the verifier does not look inside.
#[verifier::external_type_specification]
#[verifier::external_body]
pub struct ExNodeId(NodeId);

/// What an arena records of one live node.
pub struct Slot {
    /// The node stored under the handle.
    pub data: Node,
    /// The handle of the parent, if the node is attached to one.
    pub parent: Option<NodeId>,
    /// The handles of the children, first to last.
    pub children: Seq<NodeId>,
}

/// A tree of live nodes, each with its handle.
pub struct Branch {
    /// The handle of the node at the top.
    pub id: NodeId,
    /// The node at the top.
    pub node: Node,
    /// The trees below it, first to last.
    pub children: Seq<Branch>,
}

/// The handles of the trees in `branches`, each tree in pre-order, one tree after
/// the other.
pub open spec fn handles_of(branches: Seq<Branch>) -> Seq<NodeId>
    decreases branches, 0nat,
{
    if branches.len() == 0 {
        Seq::empty()
    } else {
        handles_of(branches.drop_last()) + branches.last().handles()
    }
}

/// The trees in `branches` as values.
pub open spec fn shapes_of(branches: Seq<Branch>) -> Seq<Shape>
    decreases branches, 0nat,
{
    if branches.len() == 0 {
        Seq::empty()
    } else {
        shapes_of(branches.drop_last()).push(branches.last().shape())
    }
}

impl Branch {
    /// The tree as a value: the same nodes in the same places, without handles.
    pub open spec fn shape(self) -> Shape
        decreases self, 1nat,
    {
        Shape { node: self.node, children: shapes_of(self.children) }
    }

    /// The handles of the tree in pre-order: a node before its children, the
    /// children first to last.
    pub open spec fn handles(self) -> Seq<NodeId>
        decreases self, 1nat,
    {
        seq![self.id] + handles_of(self.children)
    }

    /// The handles of the children, first to last.
    pub open spec fn child_ids(self) -> Seq<NodeId> {
        Seq::new(self.children.len(), |i: int| self.children[i].id)
    }
}

/// Whether the arena holds the tree `branch` under the handles that it names:
/// each node under its handle, with the children in the same order, and each
/// child pointing back at its parent.
pub open spec fn represents(slots: Map<NodeId, Slot>, branch: Branch) -> bool
    decreases branch,
{
    &&& slots.dom().contains(branch.id)
    &&& slots[branch.id].data == branch.node
    &&& slots[branch.id].children == branch.child_ids()
    &&& forall|i: int|
        0 <= i < branch.children.len() ==> {
            &&& slots.dom().contains(#[trigger] branch.children[i].id)
            &&& slots[branch.children[i].id].parent == Some(branch.id)
            &&& represents(slots, branch.children[i])
        }
}

/// The live nodes of an arena, by handle: a handle is in the domain as long as
/// the node that it was made for has not been removed.
pub uninterp spec fn arena_slots(arena: Arena<Node>) -> Map<NodeId, Slot>;

/// The handles of `ids` other than `id`, in their order.
pub open spec fn all_but(ids: Seq<NodeId>, id: NodeId) -> Seq<NodeId>
    decreases ids.len(),
{
    if ids.len() == 0 {
        ids
    } else if ids.last() == id {
        all_but(ids.drop_last(), id)
    } else {
        all_but(ids.drop_last(), id).push(ids.last())
    }
}

/// The arena after `id` has been cut loose from its parent: the parent loses the
/// child, the node loses the parent, and nothing else changes.
pub open spec fn detached(slots: Map<NodeId, Slot>, id: NodeId) -> Map<NodeId, Slot> {
    match slots[id].parent {
        Some(parent) => slots.insert(
            parent,
            Slot { children: all_but(slots[parent].children, id), ..slots[parent] },
        ).insert(id, Slot { parent: None, ..slots[id] }),
        None => slots,
    }
}

/// `Arena::new`: an arena without nodes.
#[verifier::external_body]
pub(crate) fn arena_new() -> (arena: Arena<Node>)
    ensures
        arena_slots(arena) =~= Map::empty(),
{
    Arena::new()
}

/// `Arena::new_node`: stores `data` as a node of its own, without parent or
/// children, under a handle that no live node had; all other nodes stay as they
/// are.
#[verifier::external_body]
pub(crate) fn arena_new_node(arena: &mut Arena<Node>, data: Node) -> (id: NodeId)
    ensures
        !arena_slots(*old(arena)).dom().contains(id),
        arena_slots(*final(arena)) == arena_slots(*old(arena)).insert(
            id,
            (Slot { data, parent: None, children: Seq::empty() }),
        ),
{
    arena.new_node(data)
}

/// Indexing an arena by a handle, then `Node::get`: the node stored under a live
/// handle.
#[verifier::external_body]
pub(crate) fn arena_node(arena: &Arena<Node>, id: NodeId) -> (data: &Node)
    requires
        arena_slots(*arena).dom().contains(id),
    ensures
        *data == arena_slots(*arena)[id].data,
{
    arena[id].get()
}

/// Indexing an arena mutably by a handle, then `Node::get_mut`: the node stored
/// under a live handle, to be changed in place; its links and all other nodes stay
/// as they are.
#[verifier::external_body]
pub(crate) fn arena_node_mut(arena: &mut Arena<Node>, id: NodeId) -> (data: &mut Node)
    requires
        arena_slots(*old(arena)).dom().contains(id),
    ensures
        *data == arena_slots(*old(arena))[id].data,
        arena_slots(*final(arena)) == arena_slots(*old(arena)).insert(
            id,
            (Slot { data: *final(data), ..arena_slots(*old(arena))[id] }),
        ),
{
    arena[id].get_mut()
}

/// `NodeId::append`, for two distinct live nodes that both have no parent: `child`
/// becomes the last child of `parent`.
#[verifier::external_body]
pub(crate) fn arena_append(arena: &mut Arena<Node>, parent: NodeId, child: NodeId)
    requires
        parent != child,
        arena_slots(*old(arena)).dom().contains(parent),
        arena_slots(*old(arena)).dom().contains(child),
        arena_slots(*old(arena))[parent].parent is None,
        arena_slots(*old(arena))[child].parent is None,
    ensures
        arena_slots(*final(arena)) == arena_slots(*old(arena)).insert(
            parent,
            (Slot {
                children: arena_slots(*old(arena))[parent].children.push(child),
                ..arena_slots(*old(arena))[parent]
            }),
        ).insert(child, (Slot { parent: Some(parent), ..arena_slots(*old(arena))[child] })),
{
    parent.append(child, arena);
}

/// `NodeId::children`: the handles of the children of a live node, first to last.
#[verifier::external_body]
pub(crate) fn arena_children(arena: &Arena<Node>, id: NodeId) -> (children: Vec<NodeId>)
    requires
        arena_slots(*arena).dom().contains(id),
    ensures
        children@ == arena_slots(*arena)[id].children,
{
    id.children(arena).collect()
}

/// `NodeId::descendants`: the handles of a live node and of all nodes below it, in
/// pre-order. Whatever tree the arena holds under `id`, these are its handles.
#[verifier::external_body]
pub(crate) fn arena_descendants(arena: &Arena<Node>, id: NodeId) -> (handles: Vec<NodeId>)
    requires
        arena_slots(*arena).dom().contains(id),
    ensures
        forall|branch: Branch|
            branch.id == id && #[trigger] represents(arena_slots(*arena), branch)
                ==> handles@ == branch.handles(),
{
    id.descendants(arena).collect()
}

/// `NodeId::detach`: cuts a live node loose from its parent. The node keeps its
/// children and stays in the arena.
#[verifier::external_body]
pub(crate) fn arena_detach(arena: &mut Arena<Node>, id: NodeId)
    requires
        arena_slots(*old(arena)).dom().contains(id),
    ensures
        arena_slots(*final(arena)) == detached(arena_slots(*old(arena)), id),
{
    id.detach(arena);
}

/// `NodeId::remove_subtree`: cuts a live node loose from its parent and removes
/// it from the arena with all nodes below it. Whatever tree the arena holds under
/// `id`, its handles are the ones that leave.
#[verifier::external_body]
pub(crate) fn arena_remove_subtree(arena: &mut Arena<Node>, id: NodeId)
    requires
        arena_slots(*old(arena)).dom().contains(id),
    ensures
        forall|branch: Branch|
            branch.id == id && #[trigger] represents(arena_slots(*old(arena)), branch)
                ==> arena_slots(*final(arena)) == detached(
                arena_slots(*old(arena)),
                id,
            ).remove_keys(branch.handles().to_set()),
{
    id.remove_subtree(arena);
}

} // verus!
