//! The state between collecting and assembling: nodes that stand alone in the
//! arena, and the lists that say which of them belong below which path.

use crate::arena::Slot;
use crate::model::Pending;
use crate::sort::nodes_of;
use indextree::NodeId;
use vstd::prelude::*;

verus! {

/// For each directory path, the handles of the children found for it.
pub type Lists = Map<Seq<char>, Seq<NodeId>>;

/// The lists with each handle replaced by the node stored under it.
pub open spec fn pending_nodes(slots: Map<NodeId, Slot>, lists: Lists) -> Pending {
    Map::new(
        |path: Seq<char>| lists.dom().contains(path),
        |path: Seq<char>| nodes_of(slots, lists[path]),
    )
}

/// Whether the list of `path` has a place `i`.
pub open spec fn at(lists: Lists, path: Seq<char>, i: int) -> bool {
    lists.dom().contains(path) && 0 <= i < lists[path].len()
}

/// Whether `x` stands in one of the lists.
pub open spec fn listed(lists: Lists, x: NodeId) -> bool {
    exists|path: Seq<char>, i: int| #[trigger] at(lists, path, i) && lists[path][i] == x
}

/// Whether the node under `id` stands alone: it is live, has neither parent nor
/// children, and has no size yet if it is a directory.
pub open spec fn loose(slots: Map<NodeId, Slot>, id: NodeId) -> bool {
    &&& slots.dom().contains(id)
    &&& slots[id].parent is None
    &&& slots[id].children.len() == 0
    &&& slots[id].data.spec_is_dir() ==> slots[id].data.size() is None
}

/// Whether the lists are finitely many, hold loose nodes only, and hold no
/// handle twice.
pub open spec fn scattered(slots: Map<NodeId, Slot>, lists: Lists) -> bool {
    &&& lists.dom().finite()
    &&& forall|path: Seq<char>, i: int| #[trigger]
        at(lists, path, i) ==> loose(slots, lists[path][i])
    &&& forall|p: Seq<char>, i: int, q: Seq<char>, j: int|
        #![trigger at(lists, p, i), at(lists, q, j)]
        at(lists, p, i) && at(lists, q, j) && (p != q || i != j) ==> lists[p][i] != lists[q][j]
}

/// Whether every list of `small` is a list of `big`, under the same path.
pub open spec fn sublists(small: Lists, big: Lists) -> bool {
    forall|path: Seq<char>| #[trigger]
        small.dom().contains(path) ==> big.dom().contains(path) && small[path] == big[path]
}

/// A handle in a list of fewer lists is in a list of the more.
pub proof fn lemma_sublists_listed(small: Lists, big: Lists, x: NodeId)
    requires
        sublists(small, big),
        listed(small, x),
    ensures
        listed(big, x),
{
    let (path, i) = choose|path: Seq<char>, i: int| #[trigger]
        at(small, path, i) && small[path][i] == x;
    assert(at(big, path, i));
}

/// A handle that stands in the list of `path` stands in no other list.
pub proof fn lemma_listed_once(slots: Map<NodeId, Slot>, lists: Lists, path: Seq<char>, i: int)
    requires
        scattered(slots, lists),
        at(lists, path, i),
    ensures
        !listed(lists.remove(path), lists[path][i]),
{
    let rest = lists.remove(path);
    if listed(rest, lists[path][i]) {
        let (q, j) = choose|q: Seq<char>, j: int| #[trigger]
            at(rest, q, j) && rest[q][j] == lists[path][i];
        assert(at(lists, q, j));
        assert(at(lists, path, i));
    }
}

/// Fewer lists of the same nodes are scattered as well.
pub proof fn lemma_scattered_sublists(
    before: Map<NodeId, Slot>,
    big: Lists,
    after: Map<NodeId, Slot>,
    small: Lists,
)
    requires
        scattered(before, big),
        sublists(small, big),
        small.dom().finite(),
        forall|x: NodeId| #[trigger] listed(small, x) ==> loose(after, x),
    ensures
        scattered(after, small),
{
    assert forall|path: Seq<char>, i: int| #[trigger] at(small, path, i) implies loose(
        after,
        small[path][i],
    ) by {
        assert(listed(small, small[path][i]));
    }
    assert forall|p: Seq<char>, i: int, q: Seq<char>, j: int|
        #![trigger at(small, p, i), at(small, q, j)]
        at(small, p, i) && at(small, q, j) && (p != q || i != j) implies small[p][i]
        != small[q][j] by {
        assert(at(big, p, i));
        assert(at(big, q, j));
    }
}

/// The nodes of the lists without one path.
pub proof fn lemma_pending_nodes_remove(slots: Map<NodeId, Slot>, lists: Lists, path: Seq<char>)
    ensures
        pending_nodes(slots, lists).remove(path) == pending_nodes(slots, lists.remove(path)),
        pending_nodes(slots, lists).dom() == lists.dom(),
{
    assert(pending_nodes(slots, lists).remove(path) =~= pending_nodes(slots, lists.remove(path)));
    assert(pending_nodes(slots, lists).dom() =~= lists.dom());
}

} // verus!
