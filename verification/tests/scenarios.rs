use erdtree::context::{Context, Direction, DiskUsage, PrefixKind, SortKey};
use erdtree::error::Error;
use erdtree::node::{Entry, FileType, Inode, Node};
use erdtree::tree::Tree;
use indextree::{Arena, NodeId};

fn context() -> Context {
    Context {
        dir: String::from("/a"),
        threads: 1,
        follow_links: false,
        ignore_git_ignore: false,
        hidden: false,
        prune: false,
        dirs_only: false,
        sort: None,
        direction: Direction::Ascending,
        disk_usage: DiskUsage::Logical,
        prefix: PrefixKind::Bin,
        scale: 2,
        level: None,
    }
}

fn entry(path: &str, file_type: FileType, size: Option<u64>) -> Entry {
    let depth = path.matches('/').count() - 1;
    let (parent, name) = match path.rfind('/') {
        Some(0) | None => (None, path),
        Some(at) => (Some(String::from(&path[..at])), &path[at + 1..]),
    };
    Entry {
        path: String::from(path),
        file_name: String::from(name),
        parent,
        depth,
        file_type,
        size,
        inode: None,
    }
}

fn dir(path: &str) -> Entry {
    entry(path, FileType::Dir, None)
}

fn file(path: &str, size: u64) -> Entry {
    entry(path, FileType::File, Some(size))
}

fn linked(path: &str, size: u64, ino: u64, nlink: u64) -> Entry {
    let mut entry = file(path, size);
    entry.inode = Some(Inode::new(ino, 7, nlink));
    entry
}

/// The tree in pre-order: for each node its depth in the tree, its path and its
/// size in bytes.
fn outline(arena: &Arena<Node>, root: NodeId) -> Vec<(usize, String, Option<u64>)> {
    root.descendants(arena)
        .map(|id| {
            let node = arena[id].get();
            (
                id.ancestors(arena).count() - 1,
                node.path().clone(),
                node.file_size().map(|size| size.bytes),
            )
        })
        .collect()
}

fn outline_of(tree: &Tree) -> Vec<(usize, String, Option<u64>)> {
    outline(tree.inner(), tree.root())
}

fn row(depth: usize, path: &str, size: Option<u64>) -> (usize, String, Option<u64>) {
    (depth, String::from(path), size)
}

#[test]
fn prunes_empty_directory_and_sums_sizes() {
    let mut ctx = context();
    ctx.prune = true;
    let entries = vec![
        dir("/a"),
        file("/a/x", 10),
        dir("/a/empty"),
        dir("/a/b"),
        file("/a/b/y", 5),
    ];
    let tree = Tree::init(ctx, entries).unwrap();
    assert_eq!(
        outline_of(&tree),
        vec![
            row(0, "/a", Some(15)),
            row(1, "/a/x", Some(10)),
            row(1, "/a/b", Some(5)),
            row(2, "/a/b/y", Some(5)),
        ]
    );
}

#[test]
fn without_pruning_the_empty_directory_stays_without_a_size() {
    let entries = vec![
        dir("/a"),
        file("/a/x", 10),
        dir("/a/empty"),
        dir("/a/b"),
        file("/a/b/y", 5),
    ];
    let tree = Tree::init(context(), entries).unwrap();
    assert_eq!(
        outline_of(&tree),
        vec![
            row(0, "/a", Some(15)),
            row(1, "/a/x", Some(10)),
            row(1, "/a/empty", None),
            row(1, "/a/b", Some(5)),
            row(2, "/a/b/y", Some(5)),
        ]
    );
}

#[test]
fn second_hard_link_is_dropped() {
    let entries = vec![dir("/a"), linked("/a/p", 8, 42, 2), linked("/a/q", 8, 42, 2)];
    let tree = Tree::init(context(), entries).unwrap();
    assert_eq!(
        outline_of(&tree),
        vec![row(0, "/a", Some(8)), row(1, "/a/p", Some(8))]
    );
}

#[test]
fn hard_links_to_different_inodes_are_both_kept() {
    let entries = vec![dir("/a"), linked("/a/p", 8, 42, 2), linked("/a/q", 8, 43, 2)];
    let tree = Tree::init(context(), entries).unwrap();
    assert_eq!(
        outline_of(&tree),
        vec![
            row(0, "/a", Some(16)),
            row(1, "/a/p", Some(8)),
            row(1, "/a/q", Some(8)),
        ]
    );
}

#[test]
fn same_inode_number_on_another_device_is_kept() {
    let mut other = linked("/a/q", 8, 42, 2);
    other.inode = Some(Inode::new(42, 8, 2));
    let entries = vec![dir("/a"), linked("/a/p", 8, 42, 2), other];
    let tree = Tree::init(context(), entries).unwrap();
    assert_eq!(outline_of(&tree).len(), 3);
}

#[test]
fn single_link_count_is_never_dropped() {
    let entries = vec![dir("/a"), linked("/a/p", 8, 42, 1), linked("/a/q", 8, 42, 1)];
    let tree = Tree::init(context(), entries).unwrap();
    assert_eq!(
        outline_of(&tree),
        vec![
            row(0, "/a", Some(16)),
            row(1, "/a/p", Some(8)),
            row(1, "/a/q", Some(8)),
        ]
    );
}

#[test]
fn dirs_only_keeps_directories_in_their_order() {
    let mut ctx = context();
    ctx.dirs_only = true;
    let entries = vec![
        dir("/a"),
        dir("/a/d2"),
        file("/a/f1", 1),
        dir("/a/d1"),
        file("/a/d1/g", 2),
        dir("/a/d1/sub"),
        file("/a/d1/sub/h", 4),
        file("/a/f2", 8),
        dir("/a/d3"),
    ];
    let tree = Tree::init(ctx, entries).unwrap();
    assert_eq!(
        outline_of(&tree),
        vec![
            row(0, "/a", Some(15)),
            row(1, "/a/d2", None),
            row(1, "/a/d1", Some(6)),
            row(2, "/a/d1/sub", Some(4)),
            row(1, "/a/d3", None),
        ]
    );
}

#[test]
fn dirs_only_leaves_the_files_in_the_arena() {
    let mut ctx = context();
    ctx.dirs_only = true;
    let entries = vec![dir("/a"), file("/a/f", 3), dir("/a/d")];
    let tree = Tree::init(ctx, entries).unwrap();
    let arena = tree.inner();
    let detached: Vec<String> = arena
        .iter()
        .filter(|node| !node.is_removed())
        .map(|node| node.get().path().clone())
        .collect();
    assert_eq!(detached, vec!["/a", "/a/f", "/a/d"]);
    assert_eq!(tree.root().children(arena).count(), 1);
}

#[test]
fn pruning_then_dirs_only() {
    let mut ctx = context();
    ctx.prune = true;
    ctx.dirs_only = true;
    let entries = vec![
        dir("/a"),
        dir("/a/empty"),
        dir("/a/full"),
        file("/a/full/f", 3),
        dir("/a/hollow"),
        dir("/a/hollow/inner"),
    ];
    let tree = Tree::init(ctx, entries).unwrap();
    assert_eq!(
        outline_of(&tree),
        vec![row(0, "/a", Some(3)), row(1, "/a/full", Some(3))]
    );
}

#[test]
fn children_may_arrive_before_their_directory() {
    let entries = vec![
        dir("/a"),
        file("/a/b/c/deep", 7),
        file("/a/b/y", 5),
        dir("/a/b/c"),
        dir("/a/b"),
        file("/a/x", 1),
    ];
    let tree = Tree::init(context(), entries).unwrap();
    assert_eq!(
        outline_of(&tree),
        vec![
            row(0, "/a", Some(13)),
            row(1, "/a/b", Some(12)),
            row(2, "/a/b/y", Some(5)),
            row(2, "/a/b/c", Some(7)),
            row(3, "/a/b/c/deep", Some(7)),
            row(1, "/a/x", Some(1)),
        ]
    );
}

#[test]
fn root_may_arrive_after_its_children() {
    let entries = vec![file("/a/x", 1), dir("/a")];
    let tree = Tree::init(context(), entries).unwrap();
    assert_eq!(
        outline_of(&tree),
        vec![row(0, "/a", Some(1)), row(1, "/a/x", Some(1))]
    );
}

#[test]
fn entries_below_an_unknown_directory_are_left_out() {
    let entries = vec![dir("/a"), file("/a/x", 1), file("/elsewhere/y", 9)];
    let tree = Tree::init(context(), entries).unwrap();
    assert_eq!(
        outline_of(&tree),
        vec![row(0, "/a", Some(1)), row(1, "/a/x", Some(1))]
    );
    assert_eq!(tree.inner().iter().count(), 3);
}

#[test]
fn directory_of_empty_files_has_no_size() {
    let entries = vec![dir("/a"), file("/a/x", 0), dir("/a/b"), file("/a/b/y", 0)];
    let tree = Tree::init(context(), entries).unwrap();
    assert_eq!(
        outline_of(&tree),
        vec![
            row(0, "/a", None),
            row(1, "/a/x", Some(0)),
            row(1, "/a/b", None),
            row(2, "/a/b/y", Some(0)),
        ]
    );
}

#[test]
fn only_regular_files_have_a_size_of_their_own() {
    let entries = vec![
        dir("/a"),
        entry("/a/link", FileType::Symlink, Some(11)),
        entry("/a/sock", FileType::Other, Some(13)),
        file("/a/f", 2),
        entry("/a/unknown", FileType::File, None),
    ];
    let tree = Tree::init(context(), entries).unwrap();
    assert_eq!(
        outline_of(&tree),
        vec![
            row(0, "/a", Some(2)),
            row(1, "/a/link", None),
            row(1, "/a/sock", None),
            row(1, "/a/f", Some(2)),
            row(1, "/a/unknown", None),
        ]
    );
}

#[test]
fn root_alone() {
    let tree = Tree::init(context(), vec![dir("/a")]).unwrap();
    assert_eq!(outline_of(&tree), vec![row(0, "/a", None)]);
}

#[test]
fn pruning_never_removes_the_root() {
    let mut ctx = context();
    ctx.prune = true;
    let entries = vec![dir("/a"), dir("/a/b"), dir("/a/b/c"), dir("/a/d")];
    let tree = Tree::init(ctx, entries).unwrap();
    assert_eq!(outline_of(&tree), vec![row(0, "/a", None)]);
    assert_eq!(tree.inner().iter().filter(|node| !node.is_removed()).count(), 1);
}

#[test]
fn missing_root() {
    let built = Tree::init(context(), vec![]);
    assert!(matches!(built, Err(Error::MissingRoot)));
    let built = Tree::init(context(), vec![file("/a/x", 1), dir("/a/b")]);
    assert!(matches!(built, Err(Error::MissingRoot)));
}

#[test]
fn root_that_is_a_file_is_no_root() {
    let mut root = file("/a/x", 1);
    root.depth = 0;
    let built = Tree::init(context(), vec![root]);
    assert!(matches!(built, Err(Error::MissingRoot)));
}

#[test]
fn expected_parent() {
    let mut orphan = file("/x", 1);
    orphan.depth = 1;
    assert!(orphan.parent.is_none());
    let built = Tree::init(context(), vec![dir("/a"), orphan]);
    assert!(matches!(built, Err(Error::ExpectedParent)));
}

#[test]
fn expected_parent_comes_before_missing_root() {
    let mut orphan = file("/x", 1);
    orphan.depth = 1;
    let built = Tree::init(context(), vec![orphan]);
    assert!(matches!(built, Err(Error::ExpectedParent)));
}

#[test]
fn root_directory_needs_no_parent() {
    let root = dir("/");
    assert!(root.parent.is_none());
    assert_eq!(root.depth, 0);
    let mut child = file("/x", 4);
    child.parent = Some(String::from("/"));
    child.depth = 1;
    let tree = Tree::init(context(), vec![root, child]).unwrap();
    assert_eq!(
        outline_of(&tree),
        vec![row(0, "/", Some(4)), row(1, "/x", Some(4))]
    );
}

#[test]
fn directory_met_twice_is_a_missing_branch() {
    let entries = vec![dir("/a"), dir("/a/b"), dir("/a/b"), file("/a/b/y", 1)];
    let built = Tree::init(context(), entries);
    assert!(matches!(built, Err(Error::MissingBranch)));
}

#[test]
fn directory_met_twice_out_of_reach_is_no_failure() {
    let entries = vec![dir("/a"), dir("/z/b"), dir("/z/b"), file("/a/x", 1)];
    let tree = Tree::init(context(), entries).unwrap();
    assert_eq!(
        outline_of(&tree),
        vec![row(0, "/a", Some(1)), row(1, "/a/x", Some(1))]
    );
}

#[test]
fn later_root_replaces_the_earlier_one() {
    let mut second = dir("/b");
    second.depth = 0;
    let mut below = file("/b/y", 2);
    below.depth = 1;
    let entries = vec![dir("/a"), file("/a/x", 1), second, below];
    let tree = Tree::init(context(), entries).unwrap();
    assert_eq!(
        outline_of(&tree),
        vec![row(0, "/b", Some(2)), row(1, "/b/y", Some(2))]
    );
}

#[test]
fn sizes_carry_the_units_of_the_context() {
    let mut ctx = context();
    ctx.disk_usage = DiskUsage::Physical;
    ctx.prefix = PrefixKind::Si;
    ctx.scale = 3;
    let tree = Tree::init(ctx, vec![dir("/a"), file("/a/x", 9)]).unwrap();
    let arena = tree.inner();
    for id in tree.root().descendants(arena) {
        let size = arena[id].get().file_size().unwrap();
        assert_eq!(size.bytes, 9);
        assert_eq!(size.disk_usage, DiskUsage::Physical);
        assert_eq!(size.prefix_kind, PrefixKind::Si);
        assert_eq!(size.scale, 3);
    }
}

#[test]
fn sums_up_to_the_largest_byte_count() {
    let entries = vec![
        dir("/a"),
        file("/a/x", u64::MAX - 5),
        dir("/a/b"),
        file("/a/b/y", 5),
    ];
    let tree = Tree::init(context(), entries).unwrap();
    let sizes: Vec<Option<u64>> = outline_of(&tree).into_iter().map(|row| row.2).collect();
    assert_eq!(sizes, vec![Some(u64::MAX), Some(u64::MAX - 5), Some(5), Some(5)]);
}

#[test]
fn tree_keeps_its_context_and_level() {
    let mut ctx = context();
    ctx.level = Some(3);
    ctx.sort = Some(SortKey::Name);
    let tree = Tree::init(ctx, vec![dir("/a")]).unwrap();
    assert_eq!(tree.level(), 3);
    assert_eq!(tree.context().sort, Some(SortKey::Name));
    assert_eq!(tree.context().dir, "/a");
    let tree = Tree::init(context(), vec![dir("/a")]).unwrap();
    assert_eq!(tree.level(), usize::MAX);
}

#[test]
fn new_puts_the_parts_together() {
    let ctx = context();
    let mut arena = Arena::new();
    let root = arena.new_node(Node::new(dir("/a"), &ctx));
    let child = arena.new_node(Node::new(file("/a/x", 3), &ctx));
    root.append(child, &mut arena);
    let tree = Tree::new(arena, root, ctx);
    assert_eq!(tree.root(), root);
    assert_eq!(
        outline_of(&tree),
        vec![row(0, "/a", None), row(1, "/a/x", Some(3))]
    );
}

#[test]
fn pruning_twice_is_pruning_once() {
    let ctx = context();
    let mut arena = Arena::new();
    let root = arena.new_node(Node::new(dir("/a"), &ctx));
    let mut hang = |arena: &mut Arena<Node>, parent: NodeId, entry: Entry| {
        let id = arena.new_node(Node::new(entry, &ctx));
        parent.append(id, arena);
        id
    };
    let b = hang(&mut arena, root, dir("/a/b"));
    let c = hang(&mut arena, b, dir("/a/b/c"));
    hang(&mut arena, c, dir("/a/b/c/d"));
    hang(&mut arena, root, file("/a/x", 1));
    let e = hang(&mut arena, root, dir("/a/e"));
    let f = hang(&mut arena, e, dir("/a/e/f"));
    hang(&mut arena, f, file("/a/e/f/y", 2));
    hang(&mut arena, e, dir("/a/e/g"));

    Tree::prune_directories(root, &mut arena);
    let once = outline(&arena, root);
    assert_eq!(
        once,
        vec![
            row(0, "/a", None),
            row(1, "/a/x", Some(1)),
            row(1, "/a/e", None),
            row(2, "/a/e/f", None),
            row(3, "/a/e/f/y", Some(2)),
        ]
    );
    Tree::prune_directories(root, &mut arena);
    assert_eq!(outline(&arena, root), once);
}

#[test]
fn filtering_twice_is_filtering_once() {
    let ctx = context();
    let mut arena = Arena::new();
    let root = arena.new_node(Node::new(dir("/a"), &ctx));
    let mut hang = |arena: &mut Arena<Node>, parent: NodeId, entry: Entry| {
        let id = arena.new_node(Node::new(entry, &ctx));
        parent.append(id, arena);
        id
    };
    let b = hang(&mut arena, root, dir("/a/b"));
    hang(&mut arena, b, file("/a/b/y", 1));
    hang(&mut arena, root, file("/a/x", 1));
    hang(&mut arena, root, dir("/a/c"));

    Tree::filter_directories(root, &mut arena);
    let once = outline(&arena, root);
    assert_eq!(
        once,
        vec![row(0, "/a", None), row(1, "/a/b", None), row(1, "/a/c", None)]
    );
    Tree::filter_directories(root, &mut arena);
    assert_eq!(outline(&arena, root), once);
}

#[test]
fn filtering_cuts_what_hangs_from_a_file() {
    let ctx = context();
    let mut arena = Arena::new();
    let root = arena.new_node(Node::new(dir("/a"), &ctx));
    let odd = arena.new_node(Node::new(file("/a/odd", 1), &ctx));
    let below = arena.new_node(Node::new(dir("/a/odd/below"), &ctx));
    let deeper = arena.new_node(Node::new(file("/a/odd/below/f", 1), &ctx));
    root.append(odd, &mut arena);
    odd.append(below, &mut arena);
    below.append(deeper, &mut arena);

    Tree::filter_directories(root, &mut arena);
    assert_eq!(outline(&arena, root), vec![row(0, "/a", None)]);
    assert!(arena[odd].parent().is_none());
    assert!(arena[deeper].parent().is_none());
    assert_eq!(arena[below].parent(), Some(odd));
}

/// The paths of everything in the tree that is no directory, sorted.
fn files_of(tree: &Tree) -> Vec<String> {
    let arena = tree.inner();
    let mut files: Vec<String> = tree
        .root()
        .descendants(arena)
        .map(|id| arena[id].get())
        .filter(|node| !node.is_dir())
        .map(|node| node.path().clone())
        .collect();
    files.sort();
    files
}

#[test]
fn every_file_of_a_walk_is_in_the_tree_whatever_the_order() {
    let walk = vec![
        dir("/a"),
        file("/a/x", 1),
        dir("/a/b"),
        file("/a/b/y", 2),
        dir("/a/b/c"),
        file("/a/b/c/z", 3),
        entry("/a/b/c/link", FileType::Symlink, None),
        dir("/a/empty"),
        file("/a/w", 4),
    ];
    let expected = vec!["/a/b/c/link", "/a/b/c/z", "/a/b/y", "/a/w", "/a/x"];
    let n = walk.len();
    for shift in 0..n {
        for reverse in [false, true] {
            let mut entries: Vec<Entry> = (0..n).map(|i| walk[(i + shift) % n].clone()).collect();
            if reverse {
                entries.reverse();
            }
            for prune in [false, true] {
                let mut ctx = context();
                ctx.prune = prune;
                let tree = Tree::init(ctx, entries.clone()).unwrap();
                assert_eq!(files_of(&tree), expected);
                let sizes: Vec<Option<u64>> = tree
                    .root()
                    .descendants(tree.inner())
                    .map(|id| tree.inner()[id].get())
                    .filter(|node| node.path() == "/a" || node.path() == "/a/b")
                    .map(|node| node.file_size().map(|size| size.bytes))
                    .collect();
                assert_eq!(sizes.len(), 2);
                assert!(sizes.contains(&Some(10)));
                assert!(sizes.contains(&Some(5)));
            }
        }
    }
}

#[test]
fn directories_with_many_links_are_all_kept() {
    let mut root = dir("/a");
    root.inode = Some(Inode::new(1, 7, 4));
    let mut first = dir("/a/b");
    first.inode = Some(Inode::new(2, 7, 2));
    let mut second = dir("/a/c");
    second.inode = Some(Inode::new(3, 7, 2));
    let tree = Tree::init(context(), vec![root, first, second, file("/a/c/f", 1)]).unwrap();
    assert_eq!(
        outline_of(&tree),
        vec![
            row(0, "/a", Some(1)),
            row(1, "/a/b", None),
            row(1, "/a/c", Some(1)),
            row(2, "/a/c/f", Some(1)),
        ]
    );
}

#[test]
fn of_three_names_the_first_is_kept() {
    let entries = vec![
        dir("/a"),
        dir("/a/b"),
        linked("/a/b/second", 8, 42, 3),
        linked("/a/first", 8, 42, 3),
        linked("/a/third", 8, 42, 3),
    ];
    let tree = Tree::init(context(), entries).unwrap();
    assert_eq!(files_of(&tree), vec!["/a/b/second"]);
    assert_eq!(tree.inner().iter().count(), 3);
}
