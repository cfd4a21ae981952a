//! The finished tree.

use crate::arena::{arena_slots, represents, Branch, Slot};
use crate::collector::Collector;
use crate::context::Context;
use crate::error::Error;
use crate::model::{assembly, build, collect, lemma_weights_grow, weights};
use crate::node::{Entry, Node};
use crate::shape::Shape;
use indextree::{Arena, NodeId};
use vstd::prelude::*;

verus! {

/// A directory tree in memory: an arena of nodes, the handle of the root, and the
/// configuration of the run that built it.
#[derive(Debug)]
pub struct Tree {
    inner: Arena<Node>,
    root: NodeId,
    ctx: Context,
}

/// Whether the arena holds `branch` and names no handle in it twice.
pub open spec fn is_tree(slots: Map<NodeId, Slot>, branch: Branch) -> bool {
    represents(slots, branch) && branch.handles().no_duplicates()
}

/// Whether the nodes that hang from `root` form a tree.
pub open spec fn is_rooted(slots: Map<NodeId, Slot>, root: NodeId) -> bool {
    exists|branch: Branch| branch.id == root && is_tree(slots, branch)
}

/// The tree that hangs from `root`, with its handles.
pub open spec fn held(slots: Map<NodeId, Slot>, root: NodeId) -> Branch {
    choose|branch: Branch| branch.id == root && is_tree(slots, branch)
}

/// The arena holds one tree under a handle: a tree that it holds is the tree
/// that hangs from its top.
pub proof fn lemma_held(slots: Map<NodeId, Slot>, branch: Branch)
    requires
        is_tree(slots, branch),
    ensures
        is_rooted(slots, branch.id),
        held(slots, branch.id) == branch,
{
    crate::branch::lemma_represents_unique(slots, held(slots, branch.id), branch);
}

/// Once collecting has failed, it has failed for good.
pub proof fn lemma_collect_fails(entries: Seq<Entry>, n: nat, m: nat, ctx: Context)
    requires
        n <= m,
        collect(entries, n, ctx) is Err,
    ensures
        collect(entries, m, ctx) == collect(entries, n, ctx),
    decreases m,
{
    if n < m {
        lemma_collect_fails(entries, n, (m - 1) as nat, ctx);
    }
}

impl View for Tree {
    type V = Shape;

    /// The tree as a value: the nodes that hang from the root, in their order.
    open spec fn view(&self) -> Shape {
        self.branch().shape()
    }
}

impl Tree {
    /// The live nodes of the arena, by handle.
    pub closed spec fn slots(self) -> Map<NodeId, Slot> {
        arena_slots(self.inner)
    }

    /// The handle of the root.
    pub closed spec fn spec_root(self) -> NodeId {
        self.root
    }

    /// The configuration of the run.
    pub closed spec fn spec_context(self) -> Context {
        self.ctx
    }

    /// Whether the nodes that hang from the root form a tree.
    pub open spec fn wf(self) -> bool {
        is_rooted(self.slots(), self.spec_root())
    }

    /// The tree that hangs from the root, with its handles.
    pub open spec fn branch(self) -> Branch {
        held(self.slots(), self.spec_root())
    }

    /// Puts an arena, the handle of its root and a configuration together.
    pub fn new(inner: Arena<Node>, root: NodeId, ctx: Context) -> (tree: Self)
        ensures
            tree.slots() == arena_slots(inner),
            tree.spec_root() == root,
            tree.spec_context() == ctx,
    {
        Tree { inner, root, ctx }
    }

    /// Builds the tree of a walk from its entries, taken in the order in which
    /// they arrived.
    ///
    /// Each entry is collected in turn; the first that names no parent ends the
    /// run. Then the tree that hangs from the root directory is assembled, with
    /// the sizes of the directories summed up and the children in the order that
    /// `ctx` asks for, and pruned and restricted to directories if `ctx` says so.
    pub fn init(ctx: Context, entries: Vec<Entry>) -> (built: Result<Self, Error>)
        requires
            weights(entries@, entries@.len()) <= u64::MAX,
        ensures
            match build(entries@, ctx) {
                Ok(shape) => built matches Ok(tree) && tree.wf() && tree@ == shape
                    && tree.spec_context() == ctx,
                Err(error) => built matches Err(other) && other == error,
            },
            built is Ok ==> assembly(entries@, ctx)->Ok_0.aggregated(ctx),
            built is Ok && !ctx.dirs_only ==> built->Ok_0@.aggregated(ctx),
    {
        let ghost all = entries@;
        let mut collector = Collector::new(ctx);
        for entry in it: entries
            invariant
                it.seq() == all,
                collector.wf(),
                collector.spec_context() == ctx,
                collect(all, it.index() as nat, ctx) == Ok::<_, Error>(collector.state()),
                collector.spec_bytes() <= weights(all, it.index() as nat),
                weights(all, all.len()) <= u64::MAX,
        {
            proof {
                lemma_weights_grow(all, (it.index() + 1) as nat, all.len());
            }
            match collector.accept(entry) {
                Ok(()) => {},
                Err(error) => {
                    proof {
                        lemma_collect_fails(all, (it.index() + 1) as nat, all.len(), ctx);
                    }
                    return Err(error);
                },
            }
        }
        collector.finish()
    }

    /// The deepest level that is displayed.
    pub fn level(&self) -> (level: usize)
        ensures
            level == match self.spec_context().level {
                Some(level) => level,
                None => usize::MAX,
            },
    {
        match self.ctx.level {
            Some(level) => level,
            None => usize::MAX,
        }
    }

    /// The configuration of the run.
    pub fn context(&self) -> (ctx: &Context)
        ensures
            *ctx == self.spec_context(),
    {
        &self.ctx
    }

    /// The handle of the root.
    pub fn root(&self) -> (root: NodeId)
        ensures
            root == self.spec_root(),
    {
        self.root
    }

    /// The arena that stores the nodes.
    pub fn inner(&self) -> (inner: &Arena<Node>)
        ensures
            arena_slots(*inner) == self.slots(),
    {
        &self.inner
    }
}

} // verus!
