//! Counting the children of a directory by kind.

use crate::arena::{arena_children, arena_node, arena_slots};
use crate::node::{FileType, Node};
use crate::sort::nodes_of;
use crate::tree::Tree;
use indextree::{Arena, NodeId};
use vstd::prelude::*;

verus! {

/// How many directories, files and symbolic links a directory holds.
#[derive(Clone, Copy, Debug, PartialEq, Eq, Structural)]
pub struct FileCount {
    /// The number of directories.
    pub num_dirs: usize,
    /// The number of entries that are neither directories nor symbolic links.
    pub num_files: usize,
    /// The number of symbolic links.
    pub num_links: usize,
}

/// The number of directories among the first `n` of `nodes`.
pub open spec fn dirs_among(nodes: Seq<Node>, n: nat) -> nat
    decreases n,
{
    if n == 0 {
        0
    } else {
        dirs_among(nodes, (n - 1) as nat) + if nodes[n - 1].spec_is_dir() {
            1nat
        } else {
            0nat
        }
    }
}

/// The number of symbolic links among the first `n` of `nodes`.
pub open spec fn links_among(nodes: Seq<Node>, n: nat) -> nat
    decreases n,
{
    if n == 0 {
        0
    } else {
        links_among(nodes, (n - 1) as nat) + if nodes[n - 1].entry().file_type
            == FileType::Symlink {
            1nat
        } else {
            0nat
        }
    }
}

/// Among `n` nodes there are at most `n` of any kind.
pub proof fn lemma_among(nodes: Seq<Node>, n: nat)
    ensures
        dirs_among(nodes, n) + links_among(nodes, n) <= n,
    decreases n,
{
    if n > 0 {
        lemma_among(nodes, (n - 1) as nat);
    }
}

impl FileCount {
    /// The count of nothing.
    pub fn new() -> (count: Self)
        ensures
            count == (FileCount { num_dirs: 0, num_files: 0, num_links: 0 }),
    {
        FileCount { num_dirs: 0, num_files: 0, num_links: 0 }
    }

    /// The count of the first `n` of `nodes`: the directories, the symbolic
    /// links, and under files everything else.
    pub open spec fn of(nodes: Seq<Node>, n: nat) -> FileCount {
        FileCount {
            num_dirs: dirs_among(nodes, n) as usize,
            num_files: (n - dirs_among(nodes, n) - links_among(nodes, n)) as usize,
            num_links: links_among(nodes, n) as usize,
        }
    }

    /// The number of entries that have been counted.
    pub open spec fn total(self) -> nat {
        (self.num_dirs + self.num_files + self.num_links) as nat
    }

    /// Counts one more node: as a directory, else as a symbolic link, else as a
    /// file.
    pub fn update(&mut self, node: &Node)
        requires
            old(self).total() < usize::MAX,
        ensures
            *final(self) == if node.spec_is_dir() {
                FileCount { num_dirs: (old(self).num_dirs + 1) as usize, ..*old(self) }
            } else if node.entry().file_type == FileType::Symlink {
                FileCount { num_links: (old(self).num_links + 1) as usize, ..*old(self) }
            } else {
                FileCount { num_files: (old(self).num_files + 1) as usize, ..*old(self) }
            },
    {
        if node.is_dir() {
            self.num_dirs = self.num_dirs + 1;
        } else if node.is_symlink() {
            self.num_links = self.num_links + 1;
        } else {
            self.num_files = self.num_files + 1;
        }
    }
}

impl Tree {
    /// Counts the children of the node under `node_id` by kind.
    pub fn compute_file_count(node_id: NodeId, tree: &Arena<Node>) -> (count: FileCount)
        requires
            arena_slots(*tree).dom().contains(node_id),
            forall|i: int|
                0 <= i < arena_slots(*tree)[node_id].children.len() ==> arena_slots(
                    *tree,
                ).dom().contains(#[trigger] arena_slots(*tree)[node_id].children[i]),
        ensures
            count == FileCount::of(
                nodes_of(arena_slots(*tree), arena_slots(*tree)[node_id].children),
                arena_slots(*tree)[node_id].children.len(),
            ),
    {
        let children = arena_children(tree, node_id);
        let ghost nodes = nodes_of(arena_slots(*tree), children@);
        let mut count = FileCount::new();
        let mut k: usize = 0;
        while k < children.len()
            invariant
                k <= children.len(),
                children@ == arena_slots(*tree)[node_id].children,
                nodes == nodes_of(arena_slots(*tree), children@),
                forall|i: int|
                    0 <= i < children@.len() ==> arena_slots(*tree).dom().contains(
                        #[trigger] children@[i],
                    ),
                count == FileCount::of(nodes, k as nat),
                count.total() == k,
            decreases children.len() - k,
        {
            proof {
                lemma_among(nodes, k as nat);
                lemma_among(nodes, (k + 1) as nat);
            }
            count.update(arena_node(tree, children[k]));
            k = k + 1;
        }
        count
    }
}

} // verus!
