//! Collecting the entries of a walk, in whatever order they arrive.

use crate::arena::{arena_new, arena_new_node, arena_slots, Slot};
use crate::branches::Branches;
use crate::context::Context;
use crate::error::Error;
use crate::assemble::assembled;
use crate::arena::Branch;
use crate::model::{appended, grown, outcome, registered, Collected};
use crate::shape::lemma_pruned_aggregated;
use crate::tree::{lemma_held, Tree};
use crate::node::{Entry, Node};
use crate::pending::{at, listed, loose, pending_nodes, scattered, Lists};
use crate::sort::nodes_of;
use crate::weight::{lemma_mass_same, lemma_total_mass_push, total_mass, weight};
use indextree::{Arena, NodeId};
use std::collections::HashSet;
use vstd::prelude::*;

verus! {

broadcast use vstd::std_specs::hash::group_hash_axioms;

/// The one consumer of the entries of a walk. It stores each entry as a node
/// of its own and notes below which path the node belongs; of several names of
/// one inode it keeps the first.
pub struct Collector {
    arena: Arena<Node>,
    branches: Branches,
    links: HashSet<u128>,
    root: Option<NodeId>,
    bytes: u64,
    ctx: Context,
    created: Ghost<Seq<NodeId>>,
}

impl Collector {
    /// The live nodes of the arena, by handle.
    pub closed spec fn slots(self) -> Map<NodeId, Slot> {
        arena_slots(self.arena)
    }

    /// For each directory path, the handles of the children found so far.
    pub closed spec fn lists(self) -> Lists {
        self.branches@
    }

    /// The handle of the root directory, once it has been seen.
    pub closed spec fn spec_root(self) -> Option<NodeId> {
        self.root
    }

    /// The inodes with several names of which one name has been taken.
    pub closed spec fn spec_links(self) -> Set<u128> {
        self.links@
    }

    /// The configuration of the run.
    pub closed spec fn spec_context(self) -> Context {
        self.ctx
    }

    /// The sum of the bytes of the nodes that have been stored.
    pub closed spec fn spec_bytes(self) -> nat {
        self.bytes as nat
    }

    /// The handles of the nodes that have been stored, in the order in which
    /// they were stored.
    pub closed spec fn created(self) -> Seq<NodeId> {
        self.created@
    }

    /// The invariant: the nodes stand alone, each handle is in at most one list
    /// and there once, and the bytes are counted.
    pub closed spec fn wf(self) -> bool {
        &&& self.branches.wf()
        &&& scattered(self.slots(), self.lists())
        &&& self.created@.no_duplicates()
        &&& forall|i: int|
            0 <= i < self.created@.len() ==> self.slots().dom().contains(#[trigger] self.created@[i])
        &&& forall|x: NodeId| #[trigger] listed(self.lists(), x) ==> self.created@.contains(x)
        &&& self.bytes == total_mass(self.slots(), self.created@)
        &&& match self.root {
            Some(root) => {
                &&& loose(self.slots(), root)
                &&& self.slots()[root].data.spec_is_dir()
                &&& !listed(self.lists(), root)
                &&& self.created@.contains(root)
            },
            None => true,
        }
    }

    /// What has been collected, as values.
    pub open spec fn state(self) -> Collected {
        Collected {
            pending: pending_nodes(self.slots(), self.lists()),
            root: match self.spec_root() {
                Some(root) => Some(self.slots()[root].data),
                None => None,
            },
            links: self.spec_links(),
        }
    }

    /// A collector that has seen no entry.
    pub fn new(ctx: Context) -> (collector: Self)
        ensures
            collector.wf(),
            collector.state() == Collected::empty(),
            collector.spec_context() == ctx,
            collector.spec_bytes() == 0,
    {
        let collector = Collector {
            arena: arena_new(),
            branches: Branches::new(),
            links: HashSet::new(),
            root: None,
            bytes: 0,
            ctx,
            created: Ghost(Seq::empty()),
        };
        proof {
            assert(collector.state().pending =~= Map::empty());
        }
        collector
    }

    /// The sum of the bytes of the nodes that have been stored.
    pub fn bytes(&self) -> (bytes: u64)
        ensures
            bytes == self.spec_bytes(),
    {
        self.bytes
    }

    /// The configuration of the run.
    pub fn context(&self) -> (ctx: &Context)
        ensures
            *ctx == self.spec_context(),
    {
        &self.ctx
    }

    /// Takes in one entry of the walk.
    ///
    /// A directory gets a list for its own children. A directory of depth 0
    /// becomes the root. Another name of an inode that has been taken is
    /// dropped. Every other entry is stored and noted below its parent path; an
    /// entry that names no parent fails the run.
    pub fn accept(&mut self, entry: Entry) -> (taken: Result<(), Error>)
        requires
            old(self).wf(),
            old(self).spec_bytes() + entry.spec_weight() <= u64::MAX,
        ensures
            final(self).spec_context() == old(self).spec_context(),
            match old(self).state().step(entry, old(self).spec_context()) {
                Ok(next) => {
                    &&& taken is Ok
                    &&& final(self).wf()
                    &&& final(self).state() == next
                    &&& final(self).spec_bytes() == old(self).spec_bytes() + if old(
                        self,
                    ).state().drops(entry) {
                        0
                    } else {
                        entry.spec_weight()
                    }
                },
                Err(error) => taken == Err::<(), Error>(error),
            },
    {
        broadcast use Node::parts;

        let ghost s0 = self.slots();
        let ghost l0 = self.lists();
        let ghost before = self.state();
        let ghost ctx = self.ctx;
        let ghost given = entry;
        let node = Node::new(entry, &self.ctx);
        let is_dir = node.is_dir();
        if is_dir {
            self.branches.register(node.path());
            proof {
                lemma_registered(s0, l0, given.path@, self.lists());
            }
            if node.depth() == 0 {
                let id = arena_new_node(&mut self.arena, node);
                self.root = Some(id);
                proof {
                    lemma_stored(s0, self.lists(), id, node, self.created@, self.slots());
                    self.created@ = self.created@.push(id);
                    assert(pending_nodes(self.slots(), self.lists()) =~= registered(
                        before.pending,
                        given.path@,
                    )) by {
                        lemma_same_nodes(s0, self.slots(), self.lists());
                    }
                }
                return Ok(());
            }
        }
        let ghost l1 = self.lists();
        let ghost pending1 = pending_nodes(s0, l1);
        match node.inode() {
            Some(inode) => {
                if inode.nlink > 1 {
                    let fresh = self.links.insert(inode.key());
                    if !fresh {
                        proof {
                            assert(self.links@ =~= before.links);
                        }
                        return Ok(());
                    }
                }
            },
            None => {},
        }
        let parent = match node.parent_path() {
            Some(parent) => parent.clone(),
            None => {
                return Err(Error::ExpectedParent);
            },
        };
        let added = match node.file_size() {
            Some(size) => if is_dir {
                0
            } else {
                size.bytes
            },
            None => 0,
        };
        let id = arena_new_node(&mut self.arena, node);
        self.branches.push(&parent, id);
        proof {
            assert(added == weight(arena_slots(self.arena), id));
        }
        self.bytes = self.bytes + added;
        proof {
            lemma_stored(s0, l1, id, node, self.created@, arena_slots(self.arena));
            lemma_pushed(self.slots(), l1, parent@, id, self.lists());
            self.created@ = self.created@.push(id);
            assert(pending_nodes(self.slots(), self.lists()) =~= appended(
                pending1,
                parent@,
                node,
            )) by {
                lemma_same_nodes(s0, self.slots(), l1);
                assert forall|path: Seq<char>| #[trigger]
                    self.lists().dom().contains(path) implies pending_nodes(
                    self.slots(),
                    self.lists(),
                )[path] == appended(pending1, parent@, node)[path] by {
                    if path == parent@ {
                        if l1.dom().contains(path) {
                            assert(nodes_of(self.slots(), l1[path].push(id)) =~= nodes_of(
                                s0,
                                l1[path],
                            ).push(node)) by {
                                assert forall|i: int|
                                    0 <= i < l1[path].len() implies self.slots()[l1[path][i]]
                                    == s0[l1[path][i]] by {
                                    assert(at(l1, path, i));
                                }
                            }
                        } else {
                            assert(nodes_of(self.slots(), seq![id]) =~= seq![node]);
                        }
                    } else {
                        assert(pending_nodes(self.slots(), l1)[path] == pending_nodes(
                            s0,
                            l1,
                        )[path]);
                    }
                }
            }
        }
        Ok(())
    }

    /// Ends the collecting and builds the tree: assembles what hangs from the
    /// root directory, then prunes it and restricts it to directories as the
    /// configuration asks. Fails if no root directory has been seen, or if a
    /// directory is reached whose children are not on record.
    pub fn finish(self) -> (built: Result<Tree, Error>)
        requires
            self.wf(),
        ensures
            match outcome(self.state(), self.spec_context()) {
                Ok(shape) => built matches Ok(tree) && tree.wf() && tree@ == shape
                    && tree.spec_context() == self.spec_context(),
                Err(error) => built matches Err(other) && other == error,
            },
            built is Ok ==> grown(self.state(), self.spec_context())->Ok_0.aggregated(
                self.spec_context(),
            ),
            built is Ok && !self.spec_context().dirs_only ==> built->Ok_0@.aggregated(
                self.spec_context(),
            ),
            built matches Ok(tree) ==> forall|x: NodeId| #[trigger]
                tree.slots().dom().contains(x) ==> self.slots().dom().contains(x) && tree.slots()[x].data.entry()
                    == self.slots()[x].data.entry(),
            built matches Ok(tree) ==> self.spec_context().prune || tree.slots().dom()
                == self.slots().dom(),
    {
        let ghost s0 = self.slots();
        let ghost l0 = self.lists();
        let Collector { arena, branches, links: _, root, bytes: _, ctx, created } = self;
        let mut arena = arena;
        let mut branches = branches;
        let root = match root {
            Some(root) => root,
            None => {
                return Err(Error::MissingRoot);
            },
        };
        match Tree::assemble_tree(&mut arena, root, &mut branches, &ctx, created) {
            Ok(()) => {},
            Err(error) => {
                return Err(error);
            },
        }
        proof {
            let branch = choose|branch: Branch|
                assembled(s0, l0, arena_slots(arena), branches@, root, created@, ctx, branch);
            lemma_held(arena_slots(arena), branch);
            lemma_pruned_aggregated(branch.shape(), ctx);
        }
        let ghost s1 = arena_slots(arena);
        if ctx.prune {
            Tree::prune_directories(root, &mut arena);
        }
        let ghost s2 = arena_slots(arena);
        if ctx.dirs_only {
            Tree::filter_directories(root, &mut arena);
        }
        proof {
            let s3 = arena_slots(arena);
            assert forall|x: NodeId| #[trigger] s3.dom().contains(x) implies s0.dom().contains(x)
                && s3[x].data.entry() == s0[x].data.entry() by {
                assert(s2.dom().contains(x));
                assert(s1.dom().contains(x));
            }
        }
        Ok(Tree::new(arena, root, ctx))
    }
}

/// A new list changes nothing for the nodes.
proof fn lemma_registered(
    slots: Map<NodeId, Slot>,
    lists: Lists,
    path: Seq<char>,
    next: Lists,
)
    requires
        scattered(slots, lists),
        next == if lists.dom().contains(path) {
            lists
        } else {
            lists.insert(path, Seq::empty())
        },
    ensures
        scattered(slots, next),
        forall|x: NodeId| #[trigger] listed(next, x) <==> listed(lists, x),
        pending_nodes(slots, next) == registered(pending_nodes(slots, lists), path),
{
    assert forall|q: Seq<char>, i: int| #[trigger] at(next, q, i) implies at(lists, q, i)
        && next[q][i] == lists[q][i] by {}
    assert forall|x: NodeId| #[trigger] listed(next, x) <==> listed(lists, x) by {
        if listed(next, x) {
            let (q, i) = choose|q: Seq<char>, i: int| #[trigger] at(next, q, i) && next[q][i] == x;
            assert(at(lists, q, i));
        }
        if listed(lists, x) {
            let (q, i) = choose|q: Seq<char>, i: int| #[trigger] at(lists, q, i) && lists[q][i] == x;
            assert(at(next, q, i));
        }
    }
    assert forall|p: Seq<char>, i: int, q: Seq<char>, j: int|
        #![trigger at(next, p, i), at(next, q, j)]
        at(next, p, i) && at(next, q, j) && (p != q || i != j) implies next[p][i] != next[q][j] by {
        assert(at(lists, p, i));
        assert(at(lists, q, j));
    }
    assert(pending_nodes(slots, next) =~= registered(pending_nodes(slots, lists), path)) by {
        if !lists.dom().contains(path) {
            assert(nodes_of(slots, Seq::empty()) =~= Seq::empty());
        }
    }
}

/// The nodes of the lists are the same as long as the listed nodes are.
proof fn lemma_same_nodes(before: Map<NodeId, Slot>, after: Map<NodeId, Slot>, lists: Lists)
    requires
        forall|x: NodeId| #[trigger] listed(lists, x) ==> after[x] == before[x],
    ensures
        pending_nodes(after, lists) == pending_nodes(before, lists),
{
    assert forall|path: Seq<char>| #[trigger] lists.dom().contains(path) implies nodes_of(
        after,
        lists[path],
    ) == nodes_of(before, lists[path]) by {
        assert forall|i: int| 0 <= i < lists[path].len() implies after[lists[path][i]]
            == before[lists[path][i]] by {
            assert(at(lists, path, i));
            assert(listed(lists, lists[path][i]));
        }
        assert(nodes_of(after, lists[path]) =~= nodes_of(before, lists[path]));
    }
    assert(pending_nodes(after, lists) =~= pending_nodes(before, lists));
}

/// A node that has just been stored stands alone, and the others are as they
/// were.
proof fn lemma_stored(
    before: Map<NodeId, Slot>,
    lists: Lists,
    id: NodeId,
    node: Node,
    created: Seq<NodeId>,
    after: Map<NodeId, Slot>,
)
    requires
        scattered(before, lists),
        !before.dom().contains(id),
        node.spec_is_dir() ==> node.size() is None,
        created.no_duplicates(),
        forall|i: int| 0 <= i < created.len() ==> before.dom().contains(#[trigger] created[i]),
        after == before.insert(id, Slot { data: node, parent: None, children: Seq::empty() }),
    ensures
        scattered(after, lists),
        loose(after, id),
        !listed(lists, id),
        created.push(id).no_duplicates(),
        forall|i: int|
            0 <= i < created.push(id).len() ==> after.dom().contains(#[trigger] created.push(id)[i]),
        total_mass(after, created.push(id)) == total_mass(before, created) + weight(after, id),
        forall|x: NodeId| #[trigger] listed(lists, x) ==> after[x] == before[x],
        forall|x: NodeId| #[trigger]
            before.dom().contains(x) ==> loose(after, x) == loose(before, x),
        forall|x: NodeId| #[trigger] created.contains(x) ==> created.push(id).contains(x),
        created.push(id).contains(id),
{
    let more = created.push(id);
    assert forall|x: NodeId|
        #[trigger] listed(lists, x) implies x != id && after[x] == before[x] by {
        let (q, i) = choose|q: Seq<char>, i: int| #[trigger] at(lists, q, i) && lists[q][i] == x;
        assert(loose(before, x));
    }
    if listed(lists, id) {
        assert(false);
    }
    assert forall|q: Seq<char>, i: int| #[trigger] at(lists, q, i) implies loose(
        after,
        lists[q][i],
    ) by {
        assert(listed(lists, lists[q][i]));
        assert(loose(before, lists[q][i]));
    }
    assert forall|i: int, j: int|
        0 <= i < more.len() && 0 <= j < more.len() && i != j implies more[i]
        != more[j] by {
        if i < created.len() {
            assert(before.dom().contains(created[i]));
        }
        if j < created.len() {
            assert(before.dom().contains(created[j]));
        }
    }
    assert forall|i: int| 0 <= i < created.len() && Set::<NodeId>::full().contains(
        #[trigger] created[i],
    ) implies weight(after, created[i]) == weight(before, created[i]) by {
        assert(before.dom().contains(created[i]));
    }
    lemma_mass_same(before, after, created, Set::full());
    lemma_total_mass_push(after, created, id);
    assert forall|x: NodeId| #[trigger] created.contains(x) implies more.contains(x) by {
        let i = choose|i: int| 0 <= i < created.len() && created[i] == x;
        assert(more[i] == x);
    }
    assert(more[created.len() as int] == id);
}

/// A handle that has just been made joins a list: the lists still hold loose
/// nodes only, each once.
proof fn lemma_pushed(
    slots: Map<NodeId, Slot>,
    lists: Lists,
    path: Seq<char>,
    id: NodeId,
    next: Lists,
)
    requires
        scattered(slots, lists),
        loose(slots, id),
        !listed(lists, id),
        next == lists.insert(
            path,
            if lists.dom().contains(path) {
                lists[path].push(id)
            } else {
                seq![id]
            },
        ),
    ensures
        scattered(slots, next),
        forall|x: NodeId| #[trigger] listed(next, x) ==> x == id || listed(lists, x),
        forall|x: NodeId| #[trigger] listed(lists, x) ==> listed(next, x),
{
    assert forall|q: Seq<char>, i: int| #[trigger] at(next, q, i) implies (next[q][i] == id && q
        == path && i == next[path].len() - 1) || (at(lists, q, i) && next[q][i] == lists[q][i]) by {}
    assert forall|x: NodeId| #[trigger] listed(next, x) implies x == id || listed(lists, x) by {
        let (q, i) = choose|q: Seq<char>, i: int| #[trigger] at(next, q, i) && next[q][i] == x;
        if x != id {
            assert(at(lists, q, i));
        }
    }
    assert forall|x: NodeId| #[trigger] listed(lists, x) implies listed(next, x) by {
        let (q, i) = choose|q: Seq<char>, i: int| #[trigger] at(lists, q, i) && lists[q][i] == x;
        assert(at(next, q, i));
        assert(next[q][i] == x);
    }
    assert forall|q: Seq<char>, i: int|
        #[trigger] at(next, q, i) implies loose(slots, next[q][i]) by {
        if next[q][i] != id {
            assert(at(lists, q, i));
        }
    }
    assert forall|p: Seq<char>, i: int, q: Seq<char>, j: int|
        #![trigger at(next, p, i), at(next, q, j)]
        at(next, p, i) && at(next, q, j) && (p != q || i != j) implies next[p][i] != next[q][j] by {
        if next[p][i] == id && next[q][j] == id {
        } else if next[p][i] == id {
            assert(at(lists, q, j));
            assert(listed(lists, next[q][j]));
        } else if next[q][j] == id {
            assert(at(lists, p, i));
            assert(listed(lists, next[p][i]));
        } else {
            assert(at(lists, p, i));
            assert(at(lists, q, j));
        }
    }
}

} // verus!
