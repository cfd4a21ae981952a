//! What a run computes, stated on values: from the entries of a walk to the tree.

use crate::context::Context;
use crate::error::Error;
use crate::node::{Entry, FileSize, FileType, Inode, Node};
use crate::shape::Shape;
use crate::sort::{arrange, sort_order};
use vstd::prelude::*;
use vstd::set_lib::lemma_len_subset;

verus! {

/// For each directory path, the nodes that name it as their parent, in the order
/// in which they were found.
pub type Pending = Map<Seq<char>, Seq<Node>>;

/// What has been collected from the entries of a walk.
pub struct Collected {
    /// The children found for each directory path.
    pub pending: Pending,
    /// The node of the root directory, once it has been seen.
    pub root: Option<Node>,
    /// The inodes with several names of which one name has been taken.
    pub links: Set<u128>,
}

/// Whether an entry is one of several names of the same inode.
pub open spec fn is_linked(entry: Entry) -> bool {
    entry.inode matches Some(inode) && inode.nlink > 1
}

/// The pending children with a list for `path`, which starts empty if it is new.
pub open spec fn registered(pending: Pending, path: Seq<char>) -> Pending {
    if pending.dom().contains(path) {
        pending
    } else {
        pending.insert(path, Seq::empty())
    }
}

/// The pending children after `node` has been added to those of `path`.
pub open spec fn appended(pending: Pending, path: Seq<char>, node: Node) -> Pending {
    pending.insert(
        path,
        if pending.dom().contains(path) {
            pending[path].push(node)
        } else {
            seq![node]
        },
    )
}

/// Whether an entry is a root directory: a directory of depth 0.
pub open spec fn is_root(entry: Entry) -> bool {
    entry.file_type == FileType::Dir && entry.depth == 0
}

impl Collected {
    /// Whether the entry is dropped as another name of an inode of which one
    /// name has been taken. A root directory is never dropped.
    pub open spec fn drops(self, entry: Entry) -> bool {
        !is_root(entry) && is_linked(entry) && self.links.contains(entry.inode->0.spec_key())
    }

    /// Nothing collected yet.
    pub open spec fn empty() -> Collected {
        Collected { pending: Map::empty(), root: None, links: Set::empty() }
    }

    /// What is collected after one more entry.
    ///
    /// A directory gets a list for its own children. A directory of depth 0 is
    /// the root and is no child of anything. Of several names of one inode only
    /// the first is taken. Every other entry is added to the children of its
    /// parent path, and fails the run if it names no parent.
    pub open spec fn step(self, entry: Entry, ctx: Context) -> Result<Collected, Error> {
        let node = Node::fresh(entry, ctx);
        let pending = if entry.file_type == FileType::Dir {
            registered(self.pending, entry.path@)
        } else {
            self.pending
        };
        if is_root(entry) {
            Ok(Collected { pending, root: Some(node), links: self.links })
        } else if self.drops(entry) {
            Ok(Collected { pending, root: self.root, links: self.links })
        } else {
            let links = if is_linked(entry) {
                self.links.insert(entry.inode->0.spec_key())
            } else {
                self.links
            };
            match entry.parent {
                None => Err(Error::ExpectedParent),
                Some(parent) => Ok(
                    Collected { pending: appended(pending, parent@, node), root: self.root, links },
                ),
            }
        }
    }
}

/// What is collected from the first `n` of `entries`, taken in their order; the
/// first entry that fails ends the run.
pub open spec fn collect(entries: Seq<Entry>, n: nat, ctx: Context) -> Result<Collected, Error>
    decreases n,
{
    if n == 0 {
        Ok(Collected::empty())
    } else {
        match collect(entries, (n - 1) as nat, ctx) {
            Ok(collected) => collected.step(entries[n - 1], ctx),
            Err(error) => Err(error),
        }
    }
}

/// The sum of the sizes of `nodes`; a node without a size adds nothing.
pub open spec fn sum_bytes(nodes: Seq<Node>) -> nat
    decreases nodes.len(),
{
    if nodes.len() == 0 {
        0
    } else {
        sum_bytes(nodes.drop_last()) + nodes.last().spec_bytes()
    }
}

/// The nodes at the top of `shapes`.
pub open spec fn tops(shapes: Seq<Shape>) -> Seq<Node> {
    Seq::new(shapes.len(), |i: int| shapes[i].node)
}

/// The tree of a directory whose children have been assembled: the directory
/// gets the sum of their sizes as its size, unless that sum is zero, and the
/// children are put in the order that `ctx` asks for.
pub open spec fn joined(node: Node, shapes: Seq<Shape>, ctx: Context) -> Shape {
    let total = sum_bytes(tops(shapes));
    Shape {
        node: match FileSize::sized(total, ctx) {
            Some(size) => node.with_size(Some(size)),
            None => node,
        },
        children: arrange(shapes, sort_order(tops(shapes), ctx.sort, ctx.direction)),
    }
}

/// The tree of the directory `node`, and the pending children that are left when
/// it is built; `None` if a directory is reached for which no children are
/// pending.
///
/// The directory takes its list of children out of the pending ones. Its
/// children are assembled first to last, each directory among them in the same
/// way from what the ones before it have left.
pub open spec fn assemble(pending: Pending, node: Node, ctx: Context) -> Option<(Shape, Pending)>
    decreases pending.dom().len(), 0nat, 0nat,
    when pending.dom().finite()
{
    let path = node.entry().path@;
    if !pending.dom().contains(path) {
        None
    } else {
        let kids = pending[path];
        match assemble_first(pending.remove(path), kids, kids.len(), ctx) {
            Some((shapes, rest)) => Some((joined(node, shapes, ctx), rest)),
            None => None,
        }
    }
}

/// The trees of the first `n` nodes of `kids`, and the pending children that are
/// left when they are built. A node that is no directory is a tree by itself.
///
/// What the nodes before the last have left is always part of what was pending
/// (`lemma_assemble_first_left`); the definition asks for it so that it is seen
/// to come to an end.
pub open spec fn assemble_first(pending: Pending, kids: Seq<Node>, n: nat, ctx: Context) -> Option<
    (Seq<Shape>, Pending),
>
    decreases pending.dom().len(), 1nat, n,
    when pending.dom().finite()
{
    if n == 0 {
        Some((Seq::empty(), pending))
    } else {
        match assemble_first(pending, kids, (n - 1) as nat, ctx) {
            Some((shapes, left)) => {
                let left = if left.dom().subset_of(pending.dom()) {
                    left
                } else {
                    pending
                };
                let kid = kids[n - 1];
                if kid.spec_is_dir() {
                    proof {
                        lemma_len_subset(left.dom(), pending.dom());
                    }
                    match assemble(left, kid, ctx) {
                        Some((shape, rest)) => Some((shapes.push(shape), rest)),
                        None => None,
                    }
                } else {
                    Some((shapes.push(Shape::leaf(kid)), left))
                }
            },
            None => None,
        }
    }
}

/// The tree after the passes that `ctx` asks for: pruning first, then the
/// restriction to directories.
pub open spec fn filtered(shape: Shape, ctx: Context) -> Shape {
    let pruned = if ctx.prune {
        shape.pruned()
    } else {
        shape
    };
    if ctx.dirs_only {
        pruned.dirs_only()
    } else {
        pruned
    }
}

/// The tree that hangs from the root directory when what has been collected is
/// assembled. It fails if no root directory was seen, or if a directory is
/// reached for which no children are pending.
pub open spec fn grown(collected: Collected, ctx: Context) -> Result<Shape, Error> {
    match collected.root {
        None => Err(Error::MissingRoot),
        Some(root) => match assemble(collected.pending, root, ctx) {
            None => Err(Error::MissingBranch),
            Some((shape, _)) => Ok(shape),
        },
    }
}

/// What is made of what has been collected: the tree of the root directory
/// after the passes that `ctx` asks for.
pub open spec fn outcome(collected: Collected, ctx: Context) -> Result<Shape, Error> {
    match grown(collected, ctx) {
        Ok(shape) => Ok(filtered(shape, ctx)),
        Err(error) => Err(error),
    }
}

/// The tree that the entries of a walk give under `ctx` before any pass over
/// it, or the failure that ends the run.
pub open spec fn assembly(entries: Seq<Entry>, ctx: Context) -> Result<Shape, Error> {
    match collect(entries, entries.len(), ctx) {
        Err(error) => Err(error),
        Ok(collected) => grown(collected, ctx),
    }
}

/// The tree that the entries of a walk give under `ctx`, or the failure that
/// ends the run.
pub open spec fn build(entries: Seq<Entry>, ctx: Context) -> Result<Shape, Error> {
    match assembly(entries, ctx) {
        Ok(shape) => Ok(filtered(shape, ctx)),
        Err(error) => Err(error),
    }
}

/// The sum of the bytes that the first `n` of `entries` add to the directories
/// above them.
pub open spec fn weights(entries: Seq<Entry>, n: nat) -> nat
    decreases n,
{
    if n == 0 {
        0
    } else {
        weights(entries, (n - 1) as nat) + entries[n - 1].spec_weight()
    }
}

/// Two inodes have the same key exactly if they lie on the same device under
/// the same number.
pub proof fn lemma_key_injective(a: Inode, b: Inode)
    ensures
        a.spec_key() == b.spec_key() <==> a.dev == b.dev && a.ino == b.ino,
{
}

/// The inodes on record are those of the entries with several names that have
/// been seen, root directories left aside.
pub proof fn lemma_links(entries: Seq<Entry>, n: nat, ctx: Context, key: u128)
    requires
        n <= entries.len(),
        collect(entries, n, ctx) is Ok,
    ensures
        collect(entries, n, ctx)->Ok_0.links.contains(key) <==> exists|k: int|
            0 <= k < n && is_linked(#[trigger] entries[k]) && !is_root(entries[k])
                && entries[k].inode->0.spec_key() == key,
    decreases n,
{
    if n > 0 {
        lemma_links(entries, (n - 1) as nat, ctx, key);
        let before = collect(entries, (n - 1) as nat, ctx)->Ok_0;
        let last = entries[n - 1];
        if before.links.contains(key) {
            let k = choose|k: int|
                0 <= k < n - 1 && is_linked(#[trigger] entries[k]) && !is_root(entries[k])
                    && entries[k].inode->0.spec_key() == key;
            assert(is_linked(entries[k]));
        }
        if exists|k: int|
            0 <= k < n && is_linked(#[trigger] entries[k]) && !is_root(entries[k])
                && entries[k].inode->0.spec_key() == key {
            let k = choose|k: int|
                0 <= k < n && is_linked(#[trigger] entries[k]) && !is_root(entries[k])
                    && entries[k].inode->0.spec_key() == key;
            if k < n - 1 {
                assert(is_linked(entries[k]));
            }
        }
    }
}

/// Of several names of one inode only the first is taken: once an entry with
/// several names has been seen, every later entry for the same inode on the same
/// device is dropped. It adds no node; all it can leave behind is an empty list
/// for its own path, if it is a directory.
pub proof fn lemma_links_once(entries: Seq<Entry>, ctx: Context, i: int, j: int)
    requires
        0 <= i < j < entries.len(),
        collect(entries, j as nat, ctx) is Ok,
        is_linked(entries[i]),
        is_linked(entries[j]),
        !is_root(entries[i]),
        !is_root(entries[j]),
        entries[i].inode->0.dev == entries[j].inode->0.dev,
        entries[i].inode->0.ino == entries[j].inode->0.ino,
    ensures
        collect(entries, j as nat, ctx)->Ok_0.drops(entries[j]),
        collect(entries, (j + 1) as nat, ctx) matches Ok(after) && after.root == collect(
            entries,
            j as nat,
            ctx,
        )->Ok_0.root && after.links == collect(entries, j as nat, ctx)->Ok_0.links && after.pending
            == if entries[j].file_type == FileType::Dir {
            registered(collect(entries, j as nat, ctx)->Ok_0.pending, entries[j].path@)
        } else {
            collect(entries, j as nat, ctx)->Ok_0.pending
        },
{
    lemma_key_injective(entries[i].inode->0, entries[j].inode->0);
    lemma_links(entries, j as nat, ctx, entries[j].inode->0.spec_key());
    assert(is_linked(entries[i]));
}

/// The first name of an inode is taken: an entry with several names that is no
/// root directory and names a parent is added to the children of its parent
/// path, unless an earlier entry was a name of the same inode on the same
/// device.
pub proof fn lemma_first_link_taken(entries: Seq<Entry>, ctx: Context, i: int)
    requires
        0 <= i < entries.len(),
        collect(entries, i as nat, ctx) is Ok,
        is_linked(entries[i]),
        !is_root(entries[i]),
        entries[i].parent is Some,
        forall|k: int|
            0 <= k < i && is_linked(#[trigger] entries[k]) && !is_root(entries[k]) ==> !(
            entries[k].inode->0.dev == entries[i].inode->0.dev && entries[k].inode->0.ino
                == entries[i].inode->0.ino),
    ensures
        !collect(entries, i as nat, ctx)->Ok_0.drops(entries[i]),
        collect(entries, (i + 1) as nat, ctx) matches Ok(after) && after.pending == appended(
            if entries[i].file_type == FileType::Dir {
                registered(collect(entries, i as nat, ctx)->Ok_0.pending, entries[i].path@)
            } else {
                collect(entries, i as nat, ctx)->Ok_0.pending
            },
            entries[i].parent->0@,
            Node::fresh(entries[i], ctx),
        ),
{
    let key = entries[i].inode->0.spec_key();
    lemma_links(entries, i as nat, ctx, key);
    if collect(entries, i as nat, ctx)->Ok_0.links.contains(key) {
        let k = choose|k: int|
            0 <= k < i && is_linked(#[trigger] entries[k]) && !is_root(entries[k])
                && entries[k].inode->0.spec_key() == key;
        lemma_key_injective(entries[k].inode->0, entries[i].inode->0);
        assert(false);
    }
}

/// What assembling leaves behind is part of what was pending: no list is added
/// and none is changed.
pub proof fn lemma_assemble_left(pending: Pending, node: Node, ctx: Context)
    requires
        pending.dom().finite(),
    ensures
        assemble(pending, node, ctx) matches Some((_, left)) ==> left.submap_of(pending),
    decreases pending.dom().len(), 0nat, 0nat,
{
    let path = node.entry().path@;
    if pending.dom().contains(path) {
        lemma_assemble_first_left(pending.remove(path), pending[path], pending[path].len(), ctx);
    }
}

/// What assembling the first children leaves behind is part of what was
/// pending.
pub proof fn lemma_assemble_first_left(pending: Pending, kids: Seq<Node>, n: nat, ctx: Context)
    requires
        pending.dom().finite(),
    ensures
        assemble_first(pending, kids, n, ctx) matches Some((shapes, left)) ==> left.submap_of(
            pending,
        ) && shapes.len() == n,
    decreases pending.dom().len(), 1nat, n,
{
    if n > 0 {
        lemma_assemble_first_left(pending, kids, (n - 1) as nat, ctx);
        match assemble_first(pending, kids, (n - 1) as nat, ctx) {
            Some((_, left)) => {
                lemma_len_subset(left.dom(), pending.dom());
                if kids[n - 1].spec_is_dir() {
                    lemma_assemble_left(left, kids[n - 1], ctx);
                }
            },
            None => {},
        }
    }
}

/// The bytes of more entries are no fewer.
pub proof fn lemma_weights_grow(entries: Seq<Entry>, n: nat, m: nat)
    requires
        n <= m,
    ensures
        weights(entries, n) <= weights(entries, m),
    decreases m,
{
    if n < m {
        lemma_weights_grow(entries, n, (m - 1) as nat);
    }
}

/// Adds up the bytes that the entries add to the directories above them; `None`
/// if the sum is beyond the range of the byte counts.
pub fn weigh(entries: &Vec<Entry>) -> (total: Option<u64>)
    ensures
        match total {
            Some(total) => total == weights(entries@, entries@.len()),
            None => weights(entries@, entries@.len()) > u64::MAX,
        },
{
    let mut total: u64 = 0;
    let mut i: usize = 0;
    while i < entries.len()
        invariant
            i <= entries.len(),
            total == weights(entries@, i as nat),
        decreases entries.len() - i,
    {
        match total.checked_add(entries[i].weight()) {
            Some(sum) => {
                total = sum;
            },
            None => {
                proof {
                    lemma_weights_grow(entries@, (i + 1) as nat, entries@.len());
                }
                return None;
            },
        }
        i = i + 1;
    }
    Some(total)
}

} // verus!
