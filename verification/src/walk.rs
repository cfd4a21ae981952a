//! Walks of a directory tree, and what a run makes of them.

use crate::context::Context;
use crate::model::{
    appended, assemble, assemble_first, assembly, build, collect, filtered, is_linked, is_root,
    joined, lemma_key_injective, lemma_links, registered, tops, Pending,
};
use crate::node::{Entry, FileType, Node};
use crate::shape::{keep_dirs, keep_kept, lemma_origin, lemma_retained, origin, Shape};
use crate::sort::{lemma_sort_order_permutation, sort_order};
use vstd::prelude::*;

verus! {

/// Whether the entry at place `k` is the directory that holds the entry at
/// place `i`: it has the path that the other names as its parent, and lies one
/// level higher.
pub open spec fn is_parent(entries: Seq<Entry>, k: int, i: int) -> bool {
    &&& 0 <= k < entries.len()
    &&& entries[k].file_type == FileType::Dir
    &&& entries[i].parent matches Some(parent)
    &&& parent@ == entries[k].path@
    &&& entries[k].depth + 1 == entries[i].depth
}

/// Whether two entries are names of the same inode: both have several names,
/// and they lie on the same device under the same number.
pub open spec fn same_inode(a: Entry, b: Entry) -> bool {
    &&& is_linked(a)
    &&& is_linked(b)
    &&& a.inode->0.dev == b.inode->0.dev
    &&& a.inode->0.ino == b.inode->0.ino
}

/// Whether the entry at place `i` is another name of an inode of which an
/// earlier entry is a name, root directories left aside.
pub open spec fn repeats(entries: Seq<Entry>, i: int) -> bool {
    &&& !is_root(entries[i])
    &&& exists|k: int| 0 <= k < i && !is_root(#[trigger] entries[k]) && same_inode(entries[k], entries[i])
}

/// Whether the entries are those of one directory tree: each path occurs once,
/// there is one root directory, every other entry lies in a directory that is
/// among the entries, and no directory is a second name of anything.
pub open spec fn is_walk(entries: Seq<Entry>) -> bool {
    &&& forall|i: int|
        0 <= i < entries.len() && (#[trigger] entries[i]).file_type == FileType::Dir ==> !repeats(
            entries,
            i,
        )
    &&& forall|i: int, j: int|
        0 <= i < entries.len() && 0 <= j < entries.len() && i != j ==> (#[trigger] entries[i]).path@
            != (#[trigger] entries[j]).path@
    &&& exists|r: int| 0 <= r < entries.len() && is_root(#[trigger] entries[r])
    &&& forall|i: int, j: int|
        0 <= i < entries.len() && 0 <= j < entries.len() && is_root(#[trigger] entries[i])
            && is_root(#[trigger] entries[j]) ==> i == j
    &&& forall|i: int|
        0 <= i < entries.len() && !is_root(#[trigger] entries[i]) ==> exists|k: int|
            is_parent(entries, k, i)
}

/// The place of the root directory among the entries of a walk.
pub open spec fn root_of(entries: Seq<Entry>) -> int {
    choose|r: int| 0 <= r < entries.len() && is_root(#[trigger] entries[r])
}

/// The place of the directory that holds the entry at place `i`.
pub open spec fn parent_of(entries: Seq<Entry>, i: int) -> int {
    choose|k: int| is_parent(entries, k, i)
}

/// Whether the entry at place `i` is stored below `path`: it names `path` as
/// its parent, is no root directory, and is the first name of its inode.
pub open spec fn lies_in(entries: Seq<Entry>, i: int, path: Seq<char>) -> bool {
    &&& !is_root(entries[i])
    &&& !repeats(entries, i)
    &&& entries[i].parent matches Some(parent)
    &&& parent@ == path
}

/// The nodes of the first `n` entries that lie in `path`, in their order.
pub open spec fn kids(entries: Seq<Entry>, n: nat, path: Seq<char>, ctx: Context) -> Seq<Node>
    decreases n,
{
    if n == 0 {
        Seq::empty()
    } else if lies_in(entries, n - 1, path) {
        kids(entries, (n - 1) as nat, path, ctx).push(Node::fresh(entries[n - 1], ctx))
    } else {
        kids(entries, (n - 1) as nat, path, ctx)
    }
}

/// The place among the entries of the node at place `c` of `kids`.
pub open spec fn kid_at(entries: Seq<Entry>, n: nat, path: Seq<char>, ctx: Context, c: int) -> int
    decreases n,
{
    if n == 0 {
        0
    } else if lies_in(entries, n - 1, path) && c == kids(entries, (n - 1) as nat, path, ctx).len() {
        n - 1
    } else {
        kid_at(entries, (n - 1) as nat, path, ctx, c)
    }
}

/// Whether one of the first `n` entries gives `path` a list: a directory with
/// that path, or an entry that lies in it.
pub open spec fn has_list(entries: Seq<Entry>, n: nat, path: Seq<char>) -> bool {
    exists|i: int|
        0 <= i < n && ((#[trigger] entries[i]).file_type == FileType::Dir && entries[i].path@ == path
            || lies_in(entries, i, path))
}

/// What is collected from the first `n` entries of a walk: for each path the
/// nodes of the entries that lie in it, in the order in which they came, and the
/// root directory once it has come.
pub proof fn lemma_collect_walk(entries: Seq<Entry>, n: nat, ctx: Context)
    requires
        is_walk(entries),
        n <= entries.len(),
    ensures
        collect(entries, n, ctx) matches Ok(collected) && {
            &&& collected.root == if root_of(entries) < n {
                Some(Node::fresh(entries[root_of(entries)], ctx))
            } else {
                None
            }
            &&& collected.pending.dom().finite()
            &&& forall|path: Seq<char>| #[trigger]
                collected.pending.dom().contains(path) <==> has_list(entries, n, path)
            &&& forall|path: Seq<char>| #[trigger]
                collected.pending.dom().contains(path) ==> collected.pending[path] == kids(
                    entries,
                    n,
                    path,
                    ctx,
                )
        },
    decreases n,
{
    broadcast use Node::parts;

    if n == 0 {
        assert forall|path: Seq<char>| !has_list(entries, 0, path) by {}
    } else {
        lemma_collect_walk(entries, (n - 1) as nat, ctx);
        let before = collect(entries, (n - 1) as nat, ctx)->Ok_0;
        let entry = entries[n - 1];
        let r = root_of(entries);
        let last = n - 1;
        lemma_drops(entries, last, ctx);
        let first = if entry.file_type == FileType::Dir {
            registered(before.pending, entry.path@)
        } else {
            before.pending
        };
        let after = collect(entries, n, ctx)->Ok_0;
        if is_root(entry) {
            assert(r == n - 1);
            assert(after.pending == first);
        } else {
            let k = choose|k: int| is_parent(entries, k, last);
            assert(is_parent(entries, k, last));
            assert(entry.parent is Some);
            if repeats(entries, last) {
                assert(entry.file_type != FileType::Dir);
                assert(after.pending == before.pending);
            } else {
                assert(after.pending == appended(
                    first,
                    entry.parent->0@,
                    Node::fresh(entry, ctx),
                ));
            }
            assert(r != n - 1);
        }
        assert forall|path: Seq<char>| #[trigger]
            after.pending.dom().contains(path) <==> has_list(entries, n, path) by {
            if has_list(entries, n, path) {
                let i = choose|i: int|
                    0 <= i < n && ((#[trigger] entries[i]).file_type == FileType::Dir
                        && entries[i].path@ == path || lies_in(entries, i, path));
                if i < n - 1 {
                    assert(has_list(entries, (n - 1) as nat, path));
                }
            }
            if after.pending.dom().contains(path) {
                if before.pending.dom().contains(path) {
                    assert(has_list(entries, (n - 1) as nat, path));
                    let i = choose|i: int|
                        0 <= i < n - 1 && ((#[trigger] entries[i]).file_type == FileType::Dir
                            && entries[i].path@ == path || lies_in(entries, i, path));
                    assert(entries[i].file_type == FileType::Dir && entries[i].path@ == path
                        || lies_in(entries, i, path));
                } else {
                    assert(entries[n - 1].file_type == FileType::Dir && entries[n - 1].path@
                        == path || lies_in(entries, n - 1, path));
                }
            }
        }
        assert forall|path: Seq<char>| #[trigger]
            after.pending.dom().contains(path) implies after.pending[path] == kids(
            entries,
            n,
            path,
            ctx,
        ) by {
            if !before.pending.dom().contains(path) {
                lemma_no_kids(entries, (n - 1) as nat, path, ctx);
                assert(kids(entries, (n - 1) as nat, path, ctx) =~= Seq::empty());
                if lies_in(entries, n - 1, path) {
                    assert(seq![Node::fresh(entry, ctx)] =~= Seq::<Node>::empty().push(
                        Node::fresh(entry, ctx),
                    ));
                }
            }
        }
    }
}

/// An entry is dropped exactly if it is another name of an inode of which an
/// earlier entry is a name.
proof fn lemma_drops(entries: Seq<Entry>, i: int, ctx: Context)
    requires
        0 <= i < entries.len(),
        collect(entries, i as nat, ctx) is Ok,
    ensures
        collect(entries, i as nat, ctx)->Ok_0.drops(entries[i]) <==> repeats(entries, i),
{
    let entry = entries[i];
    if is_linked(entry) && !is_root(entry) {
        let key = entry.inode->0.spec_key();
        lemma_links(entries, i as nat, ctx, key);
        if collect(entries, i as nat, ctx)->Ok_0.links.contains(key) {
            let k = choose|k: int|
                0 <= k < i && is_linked(#[trigger] entries[k]) && !is_root(entries[k])
                    && entries[k].inode->0.spec_key() == key;
            lemma_key_injective(entries[k].inode->0, entry.inode->0);
            assert(same_inode(entries[k], entry));
        }
        if repeats(entries, i) {
            let k = choose|k: int|
                0 <= k < i && !is_root(#[trigger] entries[k]) && same_inode(entries[k], entries[i]);
            lemma_key_injective(entries[k].inode->0, entry.inode->0);
            assert(is_linked(entries[k]));
        }
    }
}

/// A path that has no list has no nodes that lie in it.
proof fn lemma_no_kids(entries: Seq<Entry>, n: nat, path: Seq<char>, ctx: Context)
    requires
        !has_list(entries, n, path),
        n <= entries.len(),
    ensures
        kids(entries, n, path, ctx).len() == 0,
    decreases n,
{
    if n > 0 {
        let last = n - 1;
        assert(!lies_in(entries, last, path)) by {
            if lies_in(entries, last, path) {
                assert(entries[last].file_type == FileType::Dir && entries[last].path@ == path
                    || lies_in(entries, last, path));
            }
        }
        assert(!has_list(entries, (n - 1) as nat, path)) by {
            if has_list(entries, (n - 1) as nat, path) {
                let i = choose|i: int|
                    0 <= i < n - 1 && ((#[trigger] entries[i]).file_type == FileType::Dir
                        && entries[i].path@ == path || lies_in(entries, i, path));
                assert(entries[i].file_type == FileType::Dir && entries[i].path@ == path
                    || lies_in(entries, i, path));
            }
        }
        lemma_no_kids(entries, (n - 1) as nat, path, ctx);
    }
}

/// Whether the entry at place `j` lies `t` levels below the entry at place `k`:
/// `t` steps from directory to directory lead from the one up to the other.
pub open spec fn under(entries: Seq<Entry>, j: int, k: int, t: nat) -> bool
    decreases t,
{
    if t == 0 {
        j == k
    } else {
        &&& 0 <= j < entries.len()
        &&& !is_root(entries[j])
        &&& under(entries, parent_of(entries, j), k, (t - 1) as nat)
    }
}

/// Whether the entry at place `j` is the entry at place `k` or lies below it.
pub open spec fn below(entries: Seq<Entry>, j: int, k: int) -> bool {
    &&& 0 <= j < entries.len()
    &&& entries[j].depth >= entries[k].depth
    &&& under(entries, j, k, (entries[j].depth - entries[k].depth) as nat)
}

/// In a walk, an entry lies in one directory only.
pub proof fn lemma_parent_unique(entries: Seq<Entry>, k: int, other: int, i: int)
    requires
        is_walk(entries),
        is_parent(entries, k, i),
        is_parent(entries, other, i),
    ensures
        k == other,
{
}

/// In a walk, every entry but the root lies in the directory that `parent_of`
/// names.
pub proof fn lemma_parent_of(entries: Seq<Entry>, i: int)
    requires
        is_walk(entries),
        0 <= i < entries.len(),
        !is_root(entries[i]),
    ensures
        is_parent(entries, parent_of(entries, i), i),
{
    let k = choose|k: int| is_parent(entries, k, i);
    assert(is_parent(entries, k, i));
}

/// What lies below a directory lies below the directory that holds it, one
/// level further down.
pub proof fn lemma_under_up(entries: Seq<Entry>, j: int, m: int, k: int, t: nat)
    requires
        is_walk(entries),
        0 <= m < entries.len(),
        under(entries, j, m, t),
        is_parent(entries, k, m),
    ensures
        under(entries, j, k, t + 1),
    decreases t,
{
    if t == 0 {
        assert(!is_root(entries[m])) by {
            assert(entries[m].depth > 0);
        }
        lemma_parent_of(entries, m);
        lemma_parent_unique(entries, k, parent_of(entries, m), m);
        assert(under(entries, parent_of(entries, m), k, 0));
    } else {
        lemma_under_up(entries, parent_of(entries, j), m, k, (t - 1) as nat);
    }
}

/// What lies below a directory, and is not the directory itself, lies in or
/// below one of the entries that the directory holds.
pub proof fn lemma_under_down(entries: Seq<Entry>, j: int, k: int, t: nat) -> (m: int)
    requires
        is_walk(entries),
        under(entries, j, k, t),
        t >= 1,
    ensures
        0 <= m < entries.len(),
        is_parent(entries, k, m),
        under(entries, j, m, (t - 1) as nat),
    decreases t,
{
    lemma_parent_of(entries, j);
    if t == 1 {
        assert(under(entries, parent_of(entries, j), k, 0));
        assert(parent_of(entries, j) == k);
        assert(under(entries, j, j, 0));
        j
    } else {
        lemma_under_down(entries, parent_of(entries, j), k, (t - 1) as nat)
    }
}

/// An entry lies at a given number of levels below one entry only.
pub proof fn lemma_under_unique(entries: Seq<Entry>, j: int, m: int, other: int, t: nat)
    requires
        under(entries, j, m, t),
        under(entries, j, other, t),
    ensures
        m == other,
    decreases t,
{
    if t > 0 {
        lemma_under_unique(entries, parent_of(entries, j), m, other, (t - 1) as nat);
    }
}

/// Every entry of a walk is the root directory or lies below it.
pub proof fn lemma_all_below(entries: Seq<Entry>, j: int)
    requires
        is_walk(entries),
        0 <= j < entries.len(),
    ensures
        below(entries, j, root_of(entries)),
    decreases entries[j].depth,
{
    let r = root_of(entries);
    if is_root(entries[j]) {
        assert(j == r);
    } else {
        lemma_parent_of(entries, j);
        let p = parent_of(entries, j);
        lemma_all_below(entries, p);
    }
}

/// Nothing lies below what is no directory.
pub proof fn lemma_below_leaf(entries: Seq<Entry>, j: int, k: int)
    requires
        is_walk(entries),
        below(entries, j, k),
        entries[k].file_type != FileType::Dir,
    ensures
        j == k,
{
    let t = (entries[j].depth - entries[k].depth) as nat;
    if t >= 1 {
        let m = lemma_under_down(entries, j, k, t);
    }
}

/// What a node of `kids` is: the node of an entry that lies in the path; and
/// the nodes stand in the order of their entries.
pub proof fn lemma_kid_at(entries: Seq<Entry>, n: nat, path: Seq<char>, ctx: Context, c: int)
    requires
        n <= entries.len(),
        0 <= c < kids(entries, n, path, ctx).len(),
    ensures
        0 <= kid_at(entries, n, path, ctx, c) < n,
        lies_in(entries, kid_at(entries, n, path, ctx, c), path),
        kids(entries, n, path, ctx)[c] == Node::fresh(
            entries[kid_at(entries, n, path, ctx, c)],
            ctx,
        ),
        kids(entries, kid_at(entries, n, path, ctx, c) as nat, path, ctx).len() == c,
    decreases n,
{
    if lies_in(entries, n - 1, path) && c == kids(entries, (n - 1) as nat, path, ctx).len() {
    } else {
        lemma_kid_at(entries, (n - 1) as nat, path, ctx, c);
    }
}

/// Every entry that lies in the path has its node among `kids`.
pub proof fn lemma_kid_found(entries: Seq<Entry>, n: nat, path: Seq<char>, ctx: Context, i: int) -> (c:
    int)
    requires
        n <= entries.len(),
        0 <= i < n,
        lies_in(entries, i, path),
    ensures
        0 <= c < kids(entries, n, path, ctx).len(),
        kid_at(entries, n, path, ctx, c) == i,
    decreases n,
{
    if i == n - 1 {
        kids(entries, (n - 1) as nat, path, ctx).len() as int
    } else {
        let c = lemma_kid_found(entries, (n - 1) as nat, path, ctx, i);
        c
    }
}

/// An entry that lies in the path of a directory of a walk lies in that
/// directory.
pub proof fn lemma_lies_in(entries: Seq<Entry>, k: int, m: int)
    requires
        is_walk(entries),
        0 <= k < entries.len(),
        0 <= m < entries.len(),
        lies_in(entries, m, entries[k].path@),
    ensures
        is_parent(entries, k, m),
{
    let other = choose|other: int| is_parent(entries, other, m);
    assert(is_parent(entries, other, m));
    assert(other == k);
}

/// Whether `path` is the path of something in the tree that is no directory.
pub open spec fn has_file(shape: Shape, path: Seq<char>) -> bool
    decreases shape,
{
    ||| !shape.node.spec_is_dir() && shape.node.entry().path@ == path
    ||| exists|i: int|
        0 <= i < shape.children.len() && has_file(#[trigger] shape.children[i], path)
}

/// Whether `path` is the path of something that is no directory in one of the
/// first `n` trees of `shapes`.
pub open spec fn any_has_file(shapes: Seq<Shape>, n: int, path: Seq<char>) -> bool {
    exists|c: int| 0 <= c < n && c < shapes.len() && has_file(#[trigger] shapes[c], path)
}

/// Whether `path` is the path of a directory that is the entry at place `k` or
/// lies below it.
pub open spec fn dir_below(entries: Seq<Entry>, k: int, path: Seq<char>) -> bool {
    exists|j: int|
        #[trigger] below(entries, j, k) && entries[j].file_type == FileType::Dir
            && entries[j].path@ == path
}

/// Whether `path` is the path of something that is no directory and is the
/// entry at place `k` or lies below it.
pub open spec fn file_below(entries: Seq<Entry>, k: int, path: Seq<char>) -> bool {
    exists|j: int|
        #[trigger] below(entries, j, k) && entries[j].file_type != FileType::Dir && !repeats(
            entries,
            j,
        ) && entries[j].path@ == path
}

/// The paths of the directories that are the entry at place `k` or lie below
/// it.
pub open spec fn dirs_below(entries: Seq<Entry>, k: int) -> Set<Seq<char>> {
    Set::new(|path: Seq<char>| dir_below(entries, k, path))
}

/// The place among the entries of the child at place `c` of the directory at
/// place `k`.
pub open spec fn child_at(entries: Seq<Entry>, ctx: Context, k: int, c: int) -> int {
    kid_at(entries, entries.len(), entries[k].path@, ctx, c)
}

/// Whether `path` is the path of a directory in or below one of the first `c`
/// children of the directory at place `k`.
pub open spec fn dir_of_kids(
    entries: Seq<Entry>,
    ctx: Context,
    k: int,
    c: int,
    path: Seq<char>,
) -> bool {
    exists|d: int| 0 <= d < c && dir_below(entries, #[trigger] child_at(entries, ctx, k, d), path)
}

/// Whether `path` is the path of something that is no directory in or below one
/// of the first `c` children of the directory at place `k`.
pub open spec fn file_of_kids(
    entries: Seq<Entry>,
    ctx: Context,
    k: int,
    c: int,
    path: Seq<char>,
) -> bool {
    exists|d: int| 0 <= d < c && file_below(entries, #[trigger] child_at(entries, ctx, k, d), path)
}

/// The paths of the directories in or below the first `c` children of the
/// directory at place `k`.
pub open spec fn dirs_of_kids(entries: Seq<Entry>, ctx: Context, k: int, c: int) -> Set<Seq<char>> {
    Set::new(|path: Seq<char>| dir_of_kids(entries, ctx, k, c, path))
}

/// What is known of the child at place `c` of a directory of a walk.
pub proof fn lemma_child_at(entries: Seq<Entry>, ctx: Context, k: int, c: int)
    requires
        is_walk(entries),
        0 <= k < entries.len(),
        0 <= c < kids(entries, entries.len(), entries[k].path@, ctx).len(),
    ensures
        0 <= child_at(entries, ctx, k, c) < entries.len(),
        is_parent(entries, k, child_at(entries, ctx, k, c)),
        kids(entries, entries.len(), entries[k].path@, ctx)[c] == Node::fresh(
            entries[child_at(entries, ctx, k, c)],
            ctx,
        ),
        below(entries, child_at(entries, ctx, k, c), k),
        !repeats(entries, child_at(entries, ctx, k, c)),
{
    lemma_kid_at(entries, entries.len(), entries[k].path@, ctx, c);
    let m = child_at(entries, ctx, k, c);
    lemma_lies_in(entries, k, m);
    assert(under(entries, m, m, 0));
    lemma_under_up(entries, m, m, k, 0);
}

/// Two children of a directory at different places are different entries.
pub proof fn lemma_children_differ(entries: Seq<Entry>, ctx: Context, k: int, c: int, d: int)
    requires
        is_walk(entries),
        0 <= k < entries.len(),
        0 <= c < kids(entries, entries.len(), entries[k].path@, ctx).len(),
        0 <= d < kids(entries, entries.len(), entries[k].path@, ctx).len(),
        c != d,
    ensures
        child_at(entries, ctx, k, c) != child_at(entries, ctx, k, d),
{
    lemma_kid_at(entries, entries.len(), entries[k].path@, ctx, c);
    lemma_kid_at(entries, entries.len(), entries[k].path@, ctx, d);
}

/// What lies in or below a child of a directory lies below the directory, and
/// in or below no other child.
pub proof fn lemma_below_child(entries: Seq<Entry>, j: int, m: int, k: int)
    requires
        is_walk(entries),
        0 <= m < entries.len(),
        below(entries, j, m),
        is_parent(entries, k, m),
    ensures
        below(entries, j, k),
        j != k,
        forall|other: int|
            is_parent(entries, k, other) && 0 <= other < entries.len() && #[trigger] below(
                entries,
                j,
                other,
            ) ==> other == m,
{
    let t = (entries[j].depth - entries[m].depth) as nat;
    lemma_under_up(entries, j, m, k, t);
    assert forall|other: int|
        is_parent(entries, k, other) && 0 <= other < entries.len() && #[trigger] below(
            entries,
            j,
            other,
        ) implies other == m by {
        lemma_under_unique(entries, j, m, other, t);
    }
}

/// What lies below a directory lies in or below one of its children.
pub proof fn lemma_below_some_child(entries: Seq<Entry>, ctx: Context, j: int, k: int) -> (c: int)
    requires
        is_walk(entries),
        0 <= k < entries.len(),
        below(entries, j, k),
        j != k,
        !repeats(entries, j),
    ensures
        0 <= c < kids(entries, entries.len(), entries[k].path@, ctx).len(),
        below(entries, j, child_at(entries, ctx, k, c)),
{
    let t = (entries[j].depth - entries[k].depth) as nat;
    if t == 0 {
        assert(false);
    }
    let m = lemma_under_down(entries, j, k, t);
    assert(!is_root(entries[m])) by {
        assert(entries[m].depth > 0);
    }
    if t > 1 {
        // what lies between is a directory, and no directory is a second name
        let below_m = lemma_under_down(entries, j, m, (t - 1) as nat);
        assert(entries[m].file_type == FileType::Dir);
    }
    let c = lemma_kid_found(entries, entries.len(), entries[k].path@, ctx, m);
    c
}

/// Whether `pending` has, for every directory below the entry at place `k`, and
/// for that entry itself if `with_top` says so, the list of the nodes that lie
/// in it.
pub open spec fn provided(
    entries: Seq<Entry>,
    ctx: Context,
    k: int,
    pending: Pending,
    with_top: bool,
) -> bool {
    forall|j: int|
        #[trigger] below(entries, j, k) && entries[j].file_type == FileType::Dir && (with_top || j
            != k) ==> pending.dom().contains(entries[j].path@) && pending[entries[j].path@] == kids(
            entries,
            entries.len(),
            entries[j].path@,
            ctx,
        )
}

/// Assembling a directory of a walk gives the tree of all that lies below it:
/// it takes the lists of the directories below it and no others, and the tree
/// holds, of what is no directory, exactly what lies below the directory.
pub proof fn lemma_walk_assemble(
    entries: Seq<Entry>,
    ctx: Context,
    k: int,
    pending: Pending,
    bound: nat,
)
    requires
        is_walk(entries),
        0 <= k < entries.len(),
        entries[k].file_type == FileType::Dir,
        forall|j: int| 0 <= j < entries.len() ==> (#[trigger] entries[j]).depth <= bound,
        pending.dom().finite(),
        provided(entries, ctx, k, pending, true),
    ensures
        assemble(pending, Node::fresh(entries[k], ctx), ctx) matches Some((shape, left)) && {
            &&& left == pending.remove_keys(dirs_below(entries, k))
            &&& shape.node.spec_is_dir()
            &&& forall|path: Seq<char>| has_file(shape, path) <==> file_below(entries, k, path)
        },
    decreases bound - entries[k].depth, 2nat, 0nat,
{
    broadcast use Node::parts;

    let node = Node::fresh(entries[k], ctx);
    let path = entries[k].path@;
    let all = kids(entries, entries.len(), path, ctx);
    assert(under(entries, k, k, 0));
    assert(below(entries, k, k));
    let rest = pending.remove(path);
    assert(provided(entries, ctx, k, rest, false)) by {
        assert forall|j: int|
            #[trigger] below(entries, j, k) && entries[j].file_type == FileType::Dir && j
                != k implies rest.dom().contains(entries[j].path@) && rest[entries[j].path@] == kids(
            entries,
            entries.len(),
            entries[j].path@,
            ctx,
        ) by {}
    }
    lemma_walk_assemble_first(entries, ctx, k, rest, bound, all.len());
    let (shapes, left) = assemble_first(rest, all, all.len(), ctx)->0;
    let shape = joined(node, shapes, ctx);
    assert(shape.node.entry() == node.entry());
    // the lists that are taken
    assert(left =~= pending.remove_keys(dirs_below(entries, k))) by {
        assert forall|q: Seq<char>|
            dirs_below(entries, k).contains(q) <==> q == path || dirs_of_kids(
                entries,
                ctx,
                k,
                all.len() as int,
            ).contains(q) by {
            if dir_below(entries, k, q) {
                let j = choose|j: int|
                    #[trigger] below(entries, j, k) && entries[j].file_type == FileType::Dir
                        && entries[j].path@ == q;
                if j != k {
                    let c = lemma_below_some_child(entries, ctx, j, k);
                    assert(dir_below(entries, child_at(entries, ctx, k, c), q));
                }
            }
            if dir_of_kids(entries, ctx, k, all.len() as int, q) {
                let d = choose|d: int|
                    0 <= d < all.len() && dir_below(
                        entries,
                        #[trigger] child_at(entries, ctx, k, d),
                        q,
                    );
                let m = child_at(entries, ctx, k, d);
                lemma_child_at(entries, ctx, k, d);
                let j = choose|j: int|
                    #[trigger] below(entries, j, m) && entries[j].file_type == FileType::Dir
                        && entries[j].path@ == q;
                lemma_below_child(entries, j, m, k);
            }
        }
    }
    // what the tree holds
    lemma_sort_order_permutation(tops(shapes), ctx.sort, ctx.direction);
    let order = sort_order(tops(shapes), ctx.sort, ctx.direction);
    assert forall|q: Seq<char>| has_file(shape, q) <==> file_below(entries, k, q) by {
        if has_file(shape, q) {
            let i = choose|i: int|
                0 <= i < shape.children.len() && has_file(#[trigger] shape.children[i], q);
            assert(shape.children[i] == shapes[order[i]]);
            assert(any_has_file(shapes, all.len() as int, q));
            let d = choose|d: int|
                0 <= d < all.len() && file_below(entries, #[trigger] child_at(entries, ctx, k, d), q);
            let m = child_at(entries, ctx, k, d);
            lemma_child_at(entries, ctx, k, d);
            let j = choose|j: int|
                #[trigger] below(entries, j, m) && entries[j].file_type != FileType::Dir
                    && !repeats(entries, j) && entries[j].path@ == q;
            lemma_below_child(entries, j, m, k);
        }
        if file_below(entries, k, q) {
            let j = choose|j: int|
                #[trigger] below(entries, j, k) && entries[j].file_type != FileType::Dir
                    && !repeats(entries, j) && entries[j].path@ == q;
            let c = lemma_below_some_child(entries, ctx, j, k);
            assert(file_below(entries, child_at(entries, ctx, k, c), q));
            assert(file_of_kids(entries, ctx, k, all.len() as int, q));
            assert(any_has_file(shapes, all.len() as int, q));
            let d = choose|d: int|
                0 <= d < all.len() && d < shapes.len() && has_file(#[trigger] shapes[d], q);
            assert(order.contains(d));
            let i = choose|i: int| 0 <= i < order.len() && order[i] == d;
            assert(shape.children[i] == shapes[d]);
        }
    }
}

/// Assembling the first `c` children of a directory of a walk gives their
/// trees; it takes the lists of the directories in and below them, and no
/// others.
pub proof fn lemma_walk_assemble_first(
    entries: Seq<Entry>,
    ctx: Context,
    k: int,
    pending: Pending,
    bound: nat,
    c: nat,
)
    requires
        is_walk(entries),
        0 <= k < entries.len(),
        entries[k].file_type == FileType::Dir,
        forall|j: int| 0 <= j < entries.len() ==> (#[trigger] entries[j]).depth <= bound,
        pending.dom().finite(),
        provided(entries, ctx, k, pending, false),
        c <= kids(entries, entries.len(), entries[k].path@, ctx).len(),
    ensures
        assemble_first(
            pending,
            kids(entries, entries.len(), entries[k].path@, ctx),
            c,
            ctx,
        ) matches Some((shapes, left)) && {
            &&& shapes.len() == c
            &&& left == pending.remove_keys(dirs_of_kids(entries, ctx, k, c as int))
            &&& forall|path: Seq<char>|
                any_has_file(shapes, c as int, path) <==> file_of_kids(
                    entries,
                    ctx,
                    k,
                    c as int,
                    path,
                )
        },
    decreases bound - entries[k].depth, 1nat, c,
{
    broadcast use Node::parts;

    let all = kids(entries, entries.len(), entries[k].path@, ctx);
    if c == 0 {
        assert(pending =~= pending.remove_keys(dirs_of_kids(entries, ctx, k, 0)));
    } else {
        lemma_walk_assemble_first(entries, ctx, k, pending, bound, (c - 1) as nat);
        let (shapes, left) = assemble_first(pending, all, (c - 1) as nat, ctx)->0;
        let last = c - 1;
        let before = dirs_of_kids(entries, ctx, k, last);
        let m = child_at(entries, ctx, k, last);
        lemma_child_at(entries, ctx, k, last);
        let kid = all[last];
        assert(left.dom().subset_of(pending.dom()));
        if kid.spec_is_dir() {
            // the lists of what lies below the child are still there
            assert(provided(entries, ctx, m, left, true)) by {
                assert forall|j: int|
                    #[trigger] below(entries, j, m) && entries[j].file_type
                        == FileType::Dir implies left.dom().contains(entries[j].path@)
                    && left[entries[j].path@] == kids(
                    entries,
                    entries.len(),
                    entries[j].path@,
                    ctx,
                ) by {
                    lemma_below_child(entries, j, m, k);
                    assert(below(entries, j, k));
                    let q = entries[j].path@;
                    if dir_of_kids(entries, ctx, k, last, q) {
                        let d = choose|d: int|
                            0 <= d < last && dir_below(
                                entries,
                                #[trigger] child_at(entries, ctx, k, d),
                                q,
                            );
                        let other = child_at(entries, ctx, k, d);
                        lemma_child_at(entries, ctx, k, d);
                        let twin = choose|twin: int|
                            #[trigger] below(entries, twin, other) && entries[twin].file_type
                                == FileType::Dir && entries[twin].path@ == q;
                        assert(twin == j);
                        assert(below(entries, j, other));
                        lemma_children_differ(entries, ctx, k, d, last);
                        assert(false);
                    }
                }
            }
            lemma_walk_assemble(entries, ctx, m, left, bound);
            let (shape, rest) = assemble(left, kid, ctx)->0;
            let more = shapes.push(shape);
            assert(rest =~= pending.remove_keys(dirs_of_kids(entries, ctx, k, c as int))) by {
                assert forall|q: Seq<char>|
                    dirs_of_kids(entries, ctx, k, c as int).contains(q) <==> before.contains(q)
                        || dirs_below(entries, m).contains(q) by {
                    if dir_of_kids(entries, ctx, k, c as int, q) {
                        let d = choose|d: int|
                            0 <= d < c && dir_below(
                                entries,
                                #[trigger] child_at(entries, ctx, k, d),
                                q,
                            );
                        if d < last {
                            assert(dir_of_kids(entries, ctx, k, last, q));
                        }
                    }
                    if dir_of_kids(entries, ctx, k, last, q) {
                        let d = choose|d: int|
                            0 <= d < last && dir_below(
                                entries,
                                #[trigger] child_at(entries, ctx, k, d),
                                q,
                            );
                        assert(dir_below(entries, child_at(entries, ctx, k, d), q));
                    }
                    if dir_below(entries, m, q) {
                        assert(dir_below(entries, child_at(entries, ctx, k, last), q));
                    }
                }
            }
            lemma_walk_files_push(entries, ctx, k, shapes, shape, last, c as int);
        } else {
            let shape = Shape::leaf(kid);
            assert(dirs_of_kids(entries, ctx, k, c as int) =~= before) by {
                assert forall|q: Seq<char>|
                    dirs_of_kids(entries, ctx, k, c as int).contains(q) <==> before.contains(q) by {
                    if dir_of_kids(entries, ctx, k, c as int, q) {
                        let d = choose|d: int|
                            0 <= d < c && dir_below(
                                entries,
                                #[trigger] child_at(entries, ctx, k, d),
                                q,
                            );
                        if d == last {
                            let j = choose|j: int|
                                #[trigger] below(entries, j, m) && entries[j].file_type
                                    == FileType::Dir && entries[j].path@ == q;
                            lemma_below_leaf(entries, j, m);
                        }
                        assert(dir_of_kids(entries, ctx, k, last, q));
                    }
                    if dir_of_kids(entries, ctx, k, last, q) {
                        let d = choose|d: int|
                            0 <= d < last && dir_below(
                                entries,
                                #[trigger] child_at(entries, ctx, k, d),
                                q,
                            );
                        assert(dir_below(entries, child_at(entries, ctx, k, d), q));
                    }
                }
            }
            assert forall|q: Seq<char>| has_file(shape, q) <==> file_below(entries, m, q) by {
                assert(under(entries, m, m, 0));
                if has_file(shape, q) {
                    assert(below(entries, m, m));
                }
                if file_below(entries, m, q) {
                    let j = choose|j: int|
                        #[trigger] below(entries, j, m) && entries[j].file_type != FileType::Dir
                            && !repeats(entries, j) && entries[j].path@ == q;
                    lemma_below_leaf(entries, j, m);
                }
            }
            lemma_walk_files_push(entries, ctx, k, shapes, shape, last, c as int);
        }
    }
}

/// One more tree among the children: the files of the trees are those of the
/// children.
proof fn lemma_walk_files_push(
    entries: Seq<Entry>,
    ctx: Context,
    k: int,
    shapes: Seq<Shape>,
    shape: Shape,
    last: int,
    c: int,
)
    requires
        c == last + 1,
        shapes.len() == last,
        forall|path: Seq<char>|
            any_has_file(shapes, last, path) <==> file_of_kids(entries, ctx, k, last, path),
        forall|path: Seq<char>|
            has_file(shape, path) <==> file_below(entries, child_at(entries, ctx, k, last), path),
    ensures
        forall|path: Seq<char>|
            any_has_file(shapes.push(shape), c, path) <==> file_of_kids(entries, ctx, k, c, path),
{
    let more = shapes.push(shape);
    assert forall|q: Seq<char>|
        any_has_file(more, c, q) <==> file_of_kids(entries, ctx, k, c, q) by {
        if any_has_file(more, c, q) {
            let d = choose|d: int| 0 <= d < c && d < more.len() && has_file(#[trigger] more[d], q);
            if d < last {
                assert(more[d] == shapes[d]);
                assert(any_has_file(shapes, last, q));
                let e = choose|e: int|
                    0 <= e < last && file_below(entries, #[trigger] child_at(entries, ctx, k, e), q);
                assert(file_below(entries, child_at(entries, ctx, k, e), q));
            } else {
                assert(more[d] == shape);
                assert(file_below(entries, child_at(entries, ctx, k, last), q));
            }
        }
        if file_of_kids(entries, ctx, k, c, q) {
            let d = choose|d: int|
                0 <= d < c && file_below(entries, #[trigger] child_at(entries, ctx, k, d), q);
            if d < last {
                assert(file_of_kids(entries, ctx, k, last, q));
                assert(any_has_file(shapes, last, q));
                let e = choose|e: int|
                    0 <= e < last && e < shapes.len() && has_file(#[trigger] shapes[e], q);
                assert(more[e] == shapes[e]);
            } else {
                assert(more[last] == shape);
                assert(has_file(more[last], q));
            }
        }
    }
}

/// The depth of the deepest of the first `n` entries.
pub open spec fn deepest(entries: Seq<Entry>, n: nat) -> nat
    decreases n,
{
    if n == 0 {
        0
    } else if deepest(entries, (n - 1) as nat) < entries[n - 1].depth {
        entries[n - 1].depth as nat
    } else {
        deepest(entries, (n - 1) as nat)
    }
}

/// None of the first `n` entries lies deeper than the deepest.
proof fn lemma_deepest(entries: Seq<Entry>, n: nat, j: int)
    requires
        0 <= j < n,
    ensures
        entries[j].depth <= deepest(entries, n),
    decreases n,
{
    if j < n - 1 {
        lemma_deepest(entries, (n - 1) as nat, j);
    }
}

/// Whether `path` is the path of one of the entries that is no directory and
/// is the first name of its inode.
pub open spec fn is_file_path(entries: Seq<Entry>, path: Seq<char>) -> bool {
    exists|j: int|
        0 <= j < entries.len() && (#[trigger] entries[j]).file_type != FileType::Dir && !repeats(
            entries,
            j,
        ) && entries[j].path@ == path
}

/// Pruning takes away nothing that is no directory.
pub proof fn lemma_pruned_files(shape: Shape, path: Seq<char>)
    ensures
        has_file(shape.pruned(), path) <==> has_file(shape, path),
    decreases shape,
{
    let left = shape.pruned().children;
    if has_file(shape.pruned(), path) && !(!shape.node.spec_is_dir() && shape.node.entry().path@
        == path) {
        let m = choose|m: int| 0 <= m < left.len() && has_file(#[trigger] left[m], path);
        lemma_origin(shape.children, keep_kept(), m);
        let i = origin(shape.children, keep_kept(), m);
        lemma_pruned_files(shape.children[i], path);
        assert(has_file(shape.children[i], path));
    }
    if has_file(shape, path) && !(!shape.node.spec_is_dir() && shape.node.entry().path@ == path) {
        let i = choose|i: int|
            0 <= i < shape.children.len() && has_file(#[trigger] shape.children[i], path);
        let child = shape.children[i];
        lemma_file_kept(child, path);
        let m = lemma_retained(shape.children, keep_kept(), i);
        lemma_pruned_files(child, path);
        assert(has_file(left[m], path));
    }
}

/// Pruning keeps every tree that holds something that is no directory.
pub proof fn lemma_file_kept(shape: Shape, path: Seq<char>)
    requires
        has_file(shape, path),
    ensures
        shape.kept(),
    decreases shape,
{
    if shape.node.spec_is_dir() {
        let i = choose|i: int|
            0 <= i < shape.children.len() && has_file(#[trigger] shape.children[i], path);
        lemma_file_kept(shape.children[i], path);
    }
}

/// Of a directory tree nothing is lost and nothing is made up: a run on the
/// entries of a walk does not fail, and the tree that it assembles holds, of what
/// is no directory, exactly the entries of the walk that are the first name of
/// their inode; without hard links, that is all of them. Pruning changes nothing
/// in that; only the restriction to directories takes the files away.
pub proof fn lemma_walk_files(entries: Seq<Entry>, ctx: Context)
    requires
        is_walk(entries),
    ensures
        assembly(entries, ctx) matches Ok(shape) && forall|path: Seq<char>|
            has_file(shape, path) <==> is_file_path(entries, path),
        build(entries, ctx) matches Ok(shape) && (!ctx.dirs_only ==> forall|path: Seq<char>|
            has_file(shape, path) <==> is_file_path(entries, path)),
{
    let n = entries.len();
    let r = root_of(entries);
    lemma_collect_walk(entries, n, ctx);
    let collected = collect(entries, n, ctx)->Ok_0;
    let pending = collected.pending;
    let bound = deepest(entries, n);
    assert forall|j: int| 0 <= j < entries.len() implies (#[trigger] entries[j]).depth <= bound by {
        lemma_deepest(entries, n, j);
    }
    assert(provided(entries, ctx, r, pending, true)) by {
        assert forall|j: int|
            #[trigger] below(entries, j, r) && entries[j].file_type
                == FileType::Dir implies pending.dom().contains(entries[j].path@)
            && pending[entries[j].path@] == kids(entries, n, entries[j].path@, ctx) by {
            assert(entries[j].file_type == FileType::Dir && entries[j].path@ == entries[j].path@);
            assert(has_list(entries, n, entries[j].path@));
        }
    }
    lemma_walk_assemble(entries, ctx, r, pending, bound);
    let shape = assembly(entries, ctx)->Ok_0;
    assert forall|path: Seq<char>| has_file(shape, path) <==> is_file_path(entries, path) by {
        if file_below(entries, r, path) {
            let j = choose|j: int|
                #[trigger] below(entries, j, r) && entries[j].file_type != FileType::Dir
                    && !repeats(entries, j) && entries[j].path@ == path;
            assert(entries[j].file_type != FileType::Dir);
        }
        if is_file_path(entries, path) {
            let j = choose|j: int|
                0 <= j < entries.len() && (#[trigger] entries[j]).file_type != FileType::Dir
                    && !repeats(entries, j) && entries[j].path@ == path;
            lemma_all_below(entries, j);
            assert(below(entries, j, r));
        }
    }
    if !ctx.dirs_only {
        assert forall|path: Seq<char>|
            has_file(filtered(shape, ctx), path) <==> is_file_path(entries, path) by {
            lemma_pruned_files(shape, path);
        }
    }
}

/// Of several names of one inode the tree holds one: a later name of an inode
/// is not in the tree that a run assembles from the entries of a walk, and
/// the first name is, unless it is a directory.
pub proof fn lemma_walk_links(entries: Seq<Entry>, ctx: Context, i: int, j: int)
    requires
        is_walk(entries),
        0 <= i < j < entries.len(),
        !is_root(entries[i]),
        !is_root(entries[j]),
        same_inode(entries[i], entries[j]),
    ensures
        assembly(entries, ctx) matches Ok(shape) && !has_file(shape, entries[j].path@) && (
        entries[i].file_type != FileType::Dir && !repeats(entries, i) ==> has_file(
            shape,
            entries[i].path@,
        )),
        build(entries, ctx) matches Ok(shape) && !has_file(shape, entries[j].path@) && (
        !ctx.dirs_only && entries[i].file_type != FileType::Dir && !repeats(entries, i)
            ==> has_file(shape, entries[i].path@)),
{
    lemma_walk_files(entries, ctx);
    let shape = assembly(entries, ctx)->Ok_0;
    assert(repeats(entries, j));
    let path = entries[j].path@;
    if is_file_path(entries, path) {
        let k = choose|k: int|
            0 <= k < entries.len() && (#[trigger] entries[k]).file_type != FileType::Dir
                && !repeats(entries, k) && entries[k].path@ == path;
        assert(k == j);
    }
    if entries[i].file_type != FileType::Dir && !repeats(entries, i) {
        assert(is_file_path(entries, entries[i].path@));
    }
    lemma_filtered_files(shape, ctx, path);
}

/// The passes over a tree add nothing to it.
pub proof fn lemma_filtered_files(shape: Shape, ctx: Context, path: Seq<char>)
    ensures
        has_file(filtered(shape, ctx), path) ==> has_file(shape, path),
{
    let pruned = if ctx.prune {
        shape.pruned()
    } else {
        shape
    };
    lemma_pruned_files(shape, path);
    if ctx.dirs_only && has_file(filtered(shape, ctx), path) {
        lemma_retain_files(pruned, keep_dirs(), path);
    }
}

/// A choice among the trees of a tree adds nothing to it.
pub proof fn lemma_retain_files(shape: Shape, keep: spec_fn(Shape) -> bool, path: Seq<char>)
    requires
        has_file(shape.retain(keep), path),
    ensures
        has_file(shape, path),
    decreases shape,
{
    let left = shape.retain(keep).children;
    if !(!shape.node.spec_is_dir() && shape.node.entry().path@ == path) {
        let m = choose|m: int| 0 <= m < left.len() && has_file(#[trigger] left[m], path);
        lemma_origin(shape.children, keep, m);
        let i = origin(shape.children, keep, m);
        lemma_retain_files(shape.children[i], keep, path);
        assert(has_file(shape.children[i], path));
    }
}

} // verus!
