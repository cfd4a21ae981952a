//! Trees as values: what a tree holds, without the handles under which it is
//! stored.

use crate::context::Context;
use crate::node::{FileSize, Node};
use vstd::prelude::*;

verus! {

/// A tree of nodes.
pub struct Shape {
    /// The node at the top.
    pub node: Node,
    /// The trees below it, first to last.
    pub children: Seq<Shape>,
}

/// The trees of `shapes` that `keep` accepts, in their order, each with the same
/// choice made all the way down.
pub open spec fn retain_all(shapes: Seq<Shape>, keep: spec_fn(Shape) -> bool) -> Seq<Shape>
    decreases shapes, 0nat,
{
    if shapes.len() == 0 {
        Seq::empty()
    } else if keep(shapes.last()) {
        retain_all(shapes.drop_last(), keep).push(shapes.last().retain(keep))
    } else {
        retain_all(shapes.drop_last(), keep)
    }
}

/// Whether a tree is something other than a directory without children.
pub open spec fn occupied(shape: Shape) -> bool {
    !shape.node.spec_is_dir() || shape.children.len() > 0
}

/// The choice that one sweep makes: everything but directories without
/// children.
pub open spec fn keep_occupied() -> spec_fn(Shape) -> bool {
    |shape: Shape| occupied(shape)
}

/// The choice that pruning makes: everything below which, or in which, there is
/// something other than a directory.
pub open spec fn keep_kept() -> spec_fn(Shape) -> bool {
    |shape: Shape| shape.kept()
}

/// The choice of directories.
pub open spec fn keep_dirs() -> spec_fn(Shape) -> bool {
    |shape: Shape| shape.node.spec_is_dir()
}

impl Shape {
    /// A tree that is a single node.
    pub open spec fn leaf(node: Node) -> Shape {
        Shape { node, children: Seq::empty() }
    }

    /// The tree in which, below the top, only the trees that `keep` accepts are
    /// left. A tree that `keep` refuses goes with everything below it; the order of
    /// the others and their nodes stay as they are.
    pub open spec fn retain(self, keep: spec_fn(Shape) -> bool) -> Shape
        decreases self, 1nat,
    {
        Shape { node: self.node, children: retain_all(self.children, keep) }
    }

    /// Whether pruning leaves the tree in place below its parent: it is no
    /// directory, or something below it is no directory.
    pub open spec fn kept(self) -> bool
        decreases self,
    {
        !self.node.spec_is_dir() || exists|i: int|
            0 <= i < self.children.len() && (#[trigger] self.children[i]).kept()
    }

    /// The tree after one sweep: every directory below the top that had no
    /// children is gone.
    pub open spec fn swept(self) -> Shape {
        self.retain(keep_occupied())
    }

    /// The tree after pruning: every directory below the top that held
    /// directories only, if anything, is gone. The top stays whatever it holds.
    pub open spec fn pruned(self) -> Shape {
        self.retain(keep_kept())
    }

    /// The tree with only the directories left that hang from the top through
    /// directories.
    pub open spec fn dirs_only(self) -> Shape {
        self.retain(keep_dirs())
    }

    /// The sum of the sizes of everything in the tree that is no directory.
    pub open spec fn weight(self) -> nat
        decreases self, 1nat,
    {
        if self.node.spec_is_dir() {
            weight_all(self.children)
        } else {
            self.node.spec_bytes()
        }
    }

    /// Whether every directory of the tree has as its size the sum of the sizes
    /// of everything below it that is no directory, and no size if that sum is
    /// zero; and nothing hangs from what is no directory.
    pub open spec fn aggregated(self, ctx: Context) -> bool
        decreases self,
    {
        &&& if self.node.spec_is_dir() {
            self.node.size() == FileSize::sized(self.weight(), ctx)
        } else {
            self.children.len() == 0
        }
        &&& forall|i: int|
            0 <= i < self.children.len() ==> (#[trigger] self.children[i]).aggregated(ctx)
    }
}

/// The sum of the sizes of everything in the trees of `shapes` that is no
/// directory.
pub open spec fn weight_all(shapes: Seq<Shape>) -> nat
    decreases shapes, 0nat,
{
    if shapes.len() == 0 {
        0
    } else {
        weight_all(shapes.drop_last()) + shapes.last().weight()
    }
}

/// The place in `shapes` of the tree from which the tree at place `m` of
/// `retain_all(shapes, keep)` comes.
pub open spec fn origin(shapes: Seq<Shape>, keep: spec_fn(Shape) -> bool, m: int) -> int
    decreases shapes.len(),
{
    if shapes.len() == 0 {
        0
    } else if keep(shapes.last()) && m == retain_all(shapes.drop_last(), keep).len() {
        shapes.len() - 1
    } else {
        origin(shapes.drop_last(), keep, m)
    }
}

/// A choice among trees leaves no more trees than there were.
pub proof fn lemma_retain_all_len(shapes: Seq<Shape>, keep: spec_fn(Shape) -> bool)
    ensures
        retain_all(shapes, keep).len() <= shapes.len(),
    decreases shapes.len(),
{
    if shapes.len() > 0 {
        lemma_retain_all_len(shapes.drop_last(), keep);
    }
}

/// Each tree that a choice leaves comes from a tree that the choice accepts,
/// with the same node at its top.
pub proof fn lemma_origin(shapes: Seq<Shape>, keep: spec_fn(Shape) -> bool, m: int)
    requires
        0 <= m < retain_all(shapes, keep).len(),
    ensures
        0 <= origin(shapes, keep, m) < shapes.len(),
        keep(shapes[origin(shapes, keep, m)]),
        retain_all(shapes, keep)[m] == shapes[origin(shapes, keep, m)].retain(keep),
        retain_all(shapes, keep)[m].node == shapes[origin(shapes, keep, m)].node,
    decreases shapes.len(),
{
    let front = shapes.drop_last();
    if keep(shapes.last()) && m == retain_all(front, keep).len() {
    } else {
        lemma_origin(front, keep, m);
        assert(front[origin(front, keep, m)] == shapes[origin(front, keep, m)]);
    }
}

/// The trees that a choice leaves stand in the order in which they stood.
pub proof fn lemma_origin_ordered(shapes: Seq<Shape>, keep: spec_fn(Shape) -> bool, m: int, n: int)
    requires
        0 <= m < n < retain_all(shapes, keep).len(),
    ensures
        origin(shapes, keep, m) < origin(shapes, keep, n),
    decreases shapes.len(),
{
    let front = shapes.drop_last();
    if keep(shapes.last()) && n == retain_all(front, keep).len() {
        lemma_origin(front, keep, m);
    } else {
        lemma_retain_all_len(front, keep);
        lemma_origin_ordered(front, keep, m, n);
    }
}

/// Every tree that a choice accepts is among those that it leaves.
pub proof fn lemma_retained(shapes: Seq<Shape>, keep: spec_fn(Shape) -> bool, i: int) -> (m: int)
    requires
        0 <= i < shapes.len(),
        keep(shapes[i]),
    ensures
        0 <= m < retain_all(shapes, keep).len(),
        origin(shapes, keep, m) == i,
        retain_all(shapes, keep)[m] == shapes[i].retain(keep),
    decreases shapes.len(),
{
    let front = shapes.drop_last();
    if i == shapes.len() - 1 {
        retain_all(front, keep).len() as int
    } else {
        assert(front[i] == shapes[i]);
        let m = lemma_retained(front, keep, i);
        lemma_retain_all_len(front, keep);
        m
    }
}

/// A tree that pruning keeps is no directory without children.
pub proof fn lemma_kept_occupied(shape: Shape)
    requires
        shape.kept(),
    ensures
        occupied(shape),
{
}

/// A sweep does not change whether pruning keeps a tree.
pub proof fn lemma_swept_kept(shape: Shape)
    ensures
        shape.swept().kept() == shape.kept(),
    decreases shape,
{
    let keep = keep_occupied();
    let left = retain_all(shape.children, keep);
    if shape.node.spec_is_dir() {
        if shape.kept() {
            let i = choose|i: int|
                0 <= i < shape.children.len() && (#[trigger] shape.children[i]).kept();
            let child = shape.children[i];
            lemma_swept_kept(child);
            lemma_kept_occupied(child);
            assert(keep(child));
            let m = lemma_retained(shape.children, keep, i);
            assert(left[m] == child.swept());
            assert(shape.swept().children[m].kept());
        }
        if shape.swept().kept() {
            assert(shape.swept().children == left);
            let m = choose|m: int| 0 <= m < left.len() && (#[trigger] left[m]).kept();
            lemma_origin(shape.children, keep, m);
            let i = origin(shape.children, keep, m);
            lemma_swept_kept(shape.children[i]);
            assert(shape.children[i].kept());
        }
    }
}

/// Pruning after a sweep leaves what pruning alone leaves.
pub proof fn lemma_swept_pruned(shape: Shape)
    ensures
        shape.swept().pruned() == shape.pruned(),
    decreases shape, 1nat,
{
    lemma_swept_pruned_all(shape.children);
}

/// Pruning a list of trees after a sweep leaves what pruning alone leaves.
pub proof fn lemma_swept_pruned_all(shapes: Seq<Shape>)
    ensures
        retain_all(retain_all(shapes, keep_occupied()), keep_kept()) == retain_all(
            shapes,
            keep_kept(),
        ),
    decreases shapes, 0nat,
{
    if shapes.len() > 0 {
        let front = shapes.drop_last();
        let last = shapes.last();
        lemma_swept_pruned_all(front);
        lemma_swept_kept(last);
        if occupied(last) {
            let swept = retain_all(front, keep_occupied()).push(last.swept());
            assert(swept.drop_last() == retain_all(front, keep_occupied()));
            assert(swept.last() == last.swept());
            lemma_swept_pruned(last);
        }
    }
}

/// A tree that a sweep leaves as it is has no directory without children below
/// its top; pruning leaves it as it is as well, and keeps it unless it is a
/// directory without children itself.
pub proof fn lemma_settled(shape: Shape)
    requires
        shape.swept() == shape,
    ensures
        shape.pruned() == shape,
        occupied(shape) ==> shape.kept(),
    decreases shape, 1nat,
{
    lemma_settled_all(shape.children);
    if shape.node.spec_is_dir() && shape.children.len() > 0 {
        assert(shape.children[shape.children.len() - 1].kept());
    }
}

/// Trees that a sweep leaves as they are are kept by pruning as they are.
pub proof fn lemma_settled_all(shapes: Seq<Shape>)
    requires
        retain_all(shapes, keep_occupied()) == shapes,
    ensures
        retain_all(shapes, keep_kept()) == shapes,
        forall|i: int| 0 <= i < shapes.len() ==> (#[trigger] shapes[i]).kept(),
    decreases shapes, 0nat,
{
    if shapes.len() > 0 {
        let front = shapes.drop_last();
        let last = shapes.last();
        lemma_retain_all_len(front, keep_occupied());
        assert(occupied(last));
        let swept = retain_all(front, keep_occupied()).push(last.swept());
        assert(swept == shapes);
        assert(swept.drop_last() == retain_all(front, keep_occupied()));
        assert(swept.last() == last.swept());
        lemma_settled_all(front);
        lemma_settled(last);
        assert(front.push(last) == shapes);
        assert forall|i: int| 0 <= i < shapes.len() implies (#[trigger] shapes[i]).kept() by {
            if i < front.len() {
                assert(front[i] == shapes[i]);
            }
        }
    }
}

/// A tree that pruning keeps is still kept once it has been pruned itself.
pub proof fn lemma_pruned_kept(shape: Shape)
    requires
        shape.kept(),
    ensures
        shape.pruned().kept(),
    decreases shape,
{
    if shape.node.spec_is_dir() {
        let i = choose|i: int|
            0 <= i < shape.children.len() && (#[trigger] shape.children[i]).kept();
        let child = shape.children[i];
        lemma_pruned_kept(child);
        assert(keep_kept()(child));
        let m = lemma_retained(shape.children, keep_kept(), i);
        assert(shape.pruned().children[m] == child.pruned());
        assert(shape.pruned().children[m].kept());
    }
}

/// Pruning is idempotent: pruning a pruned tree leaves it as it is. The node at
/// the top is never removed, whatever is left below it.
pub proof fn lemma_pruned_twice(shape: Shape)
    ensures
        shape.pruned().pruned() == shape.pruned(),
        shape.pruned().node == shape.node,
    decreases shape, 1nat,
{
    lemma_pruned_twice_all(shape.children);
}

/// Pruning a list of pruned trees leaves it as it is.
pub proof fn lemma_pruned_twice_all(shapes: Seq<Shape>)
    ensures
        retain_all(retain_all(shapes, keep_kept()), keep_kept()) == retain_all(shapes, keep_kept()),
    decreases shapes, 0nat,
{
    if shapes.len() == 0 {
        assert(retain_all(shapes, keep_kept()) =~= Seq::empty());
    } else {
        let front = shapes.drop_last();
        let last = shapes.last();
        lemma_pruned_twice_all(front);
        if last.kept() {
            let once = retain_all(front, keep_kept()).push(last.pruned());
            assert(once.drop_last() == retain_all(front, keep_kept()));
            assert(once.last() == last.pruned());
            lemma_pruned_kept(last);
            lemma_pruned_twice(last);
        }
    }
}

/// The restriction to directories is idempotent.
pub proof fn lemma_dirs_only_twice(shape: Shape)
    ensures
        shape.dirs_only().dirs_only() == shape.dirs_only(),
    decreases shape, 1nat,
{
    lemma_dirs_only_twice_all(shape.children);
}

/// Restricting a list of restricted trees leaves it as it is.
pub proof fn lemma_dirs_only_twice_all(shapes: Seq<Shape>)
    ensures
        retain_all(retain_all(shapes, keep_dirs()), keep_dirs()) == retain_all(shapes, keep_dirs()),
    decreases shapes, 0nat,
{
    if shapes.len() == 0 {
        assert(retain_all(shapes, keep_dirs()) =~= Seq::empty());
    } else {
        let front = shapes.drop_last();
        let last = shapes.last();
        lemma_dirs_only_twice_all(front);
        if last.node.spec_is_dir() {
            let once = retain_all(front, keep_dirs()).push(last.dirs_only());
            assert(once.drop_last() == retain_all(front, keep_dirs()));
            assert(once.last() == last.dirs_only());
            lemma_dirs_only_twice(last);
        }
    }
}

/// The restriction to directories changes no node that is left and no order:
/// the top keeps its node; each tree left below it is a directory that stood
/// below the top before, restricted in the same way, with its node, and so its
/// size, unchanged; and of two trees that are left, the one that stood first
/// still stands first. What holds of the top holds of every tree that is left,
/// all the way down.
pub proof fn lemma_dirs_only_keeps(shape: Shape, m: int, n: int)
    requires
        0 <= m < n < shape.dirs_only().children.len(),
    ensures
        shape.dirs_only().node == shape.node,
        ({
            let from = origin(shape.children, keep_dirs(), m);
            let to = origin(shape.children, keep_dirs(), n);
            &&& 0 <= from < to < shape.children.len()
            &&& shape.children[from].node.spec_is_dir()
            &&& shape.children[to].node.spec_is_dir()
            &&& shape.dirs_only().children[m] == shape.children[from].dirs_only()
            &&& shape.dirs_only().children[n] == shape.children[to].dirs_only()
            &&& shape.dirs_only().children[m].node == shape.children[from].node
            &&& shape.dirs_only().children[n].node == shape.children[to].node
        }),
{
    lemma_origin(shape.children, keep_dirs(), m);
    lemma_origin(shape.children, keep_dirs(), n);
    lemma_origin_ordered(shape.children, keep_dirs(), m, n);
}

/// Every directory that stood below the top is still there after the
/// restriction to directories.
pub proof fn lemma_dirs_only_complete(shape: Shape, i: int) -> (m: int)
    requires
        0 <= i < shape.children.len(),
        shape.children[i].node.spec_is_dir(),
    ensures
        0 <= m < shape.dirs_only().children.len(),
        origin(shape.children, keep_dirs(), m) == i,
        shape.dirs_only().children[m] == shape.children[i].dirs_only(),
{
    lemma_retained(shape.children, keep_dirs(), i)
}

/// Pruning changes no node that is left and no order: each tree left below the
/// top stood below the top before, is pruned in the same way, and has its node
/// unchanged; and of two trees that are left, the one that stood first still
/// stands first.
pub proof fn lemma_pruned_keeps(shape: Shape, m: int, n: int)
    requires
        0 <= m < n < shape.pruned().children.len(),
    ensures
        ({
            let from = origin(shape.children, keep_kept(), m);
            let to = origin(shape.children, keep_kept(), n);
            &&& 0 <= from < to < shape.children.len()
            &&& shape.pruned().children[m] == shape.children[from].pruned()
            &&& shape.pruned().children[n] == shape.children[to].pruned()
            &&& shape.pruned().children[m].node == shape.children[from].node
            &&& shape.pruned().children[n].node == shape.children[to].node
        }),
{
    lemma_origin(shape.children, keep_kept(), m);
    lemma_origin(shape.children, keep_kept(), n);
    lemma_origin_ordered(shape.children, keep_kept(), m, n);
}

/// A tree that pruning does not keep holds directories only, and weighs
/// nothing.
pub proof fn lemma_unkept_weightless(shape: Shape, ctx: Context)
    requires
        shape.aggregated(ctx),
        !shape.kept(),
    ensures
        shape.weight() == 0,
    decreases shape, 1nat,
{
    lemma_unkept_weightless_all(shape.children, ctx);
}

/// Trees that pruning does not keep weigh nothing.
pub proof fn lemma_unkept_weightless_all(shapes: Seq<Shape>, ctx: Context)
    requires
        forall|i: int| 0 <= i < shapes.len() ==> (#[trigger] shapes[i]).aggregated(ctx),
        forall|i: int| 0 <= i < shapes.len() ==> !(#[trigger] shapes[i]).kept(),
    ensures
        weight_all(shapes) == 0,
    decreases shapes, 0nat,
{
    if shapes.len() > 0 {
        let front = shapes.drop_last();
        assert forall|i: int|
            0 <= i < front.len() implies (#[trigger] front[i]).aggregated(ctx) && !front[i].kept() by {
            assert(front[i] == shapes[i]);
        }
        lemma_unkept_weightless_all(front, ctx);
        assert(shapes[shapes.len() - 1] == shapes.last());
        lemma_unkept_weightless(shapes.last(), ctx);
    }
}

/// Pruning leaves the sizes right: in a pruned tree, too, every directory has as
/// its size the sum of the sizes of everything below it that is no directory.
/// Pruning takes away nothing that has a size.
pub proof fn lemma_pruned_aggregated(shape: Shape, ctx: Context)
    requires
        shape.aggregated(ctx),
    ensures
        shape.pruned().aggregated(ctx),
        shape.pruned().weight() == shape.weight(),
    decreases shape, 1nat,
{
    lemma_pruned_aggregated_all(shape.children, ctx);
    let left = shape.pruned().children;
    assert forall|m: int| 0 <= m < left.len() implies (#[trigger] left[m]).aggregated(ctx) by {
        lemma_origin(shape.children, keep_kept(), m);
    }
    if !shape.node.spec_is_dir() {
        assert(retain_all(shape.children, keep_kept()) =~= Seq::empty());
    }
}

/// Pruning a list of trees leaves the sizes right and the weight as it was.
pub proof fn lemma_pruned_aggregated_all(shapes: Seq<Shape>, ctx: Context)
    requires
        forall|i: int| 0 <= i < shapes.len() ==> (#[trigger] shapes[i]).aggregated(ctx),
    ensures
        weight_all(retain_all(shapes, keep_kept())) == weight_all(shapes),
        forall|m: int|
            0 <= m < retain_all(shapes, keep_kept()).len() ==> (#[trigger] retain_all(
                shapes,
                keep_kept(),
            )[m]).aggregated(ctx),
    decreases shapes, 0nat,
{
    if shapes.len() > 0 {
        let front = shapes.drop_last();
        let last = shapes.last();
        assert(shapes[shapes.len() - 1] == last);
        assert forall|i: int|
            0 <= i < front.len() implies (#[trigger] front[i]).aggregated(ctx) by {
            assert(front[i] == shapes[i]);
        }
        lemma_pruned_aggregated_all(front, ctx);
        if last.kept() {
            lemma_pruned_aggregated(last, ctx);
            let left = retain_all(front, keep_kept()).push(last.pruned());
            assert(left.drop_last() == retain_all(front, keep_kept()));
            assert(left.last() == last.pruned());
            assert forall|m: int|
                0 <= m < left.len() implies (#[trigger] left[m]).aggregated(ctx) by {
                if m < left.len() - 1 {
                    assert(left[m] == retain_all(front, keep_kept())[m]);
                }
            }
        } else {
            lemma_unkept_weightless(last, ctx);
        }
    }
}

} // verus!
