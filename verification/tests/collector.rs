use erdtree::branches::Branches;
use erdtree::collector::Collector;
use erdtree::context::{Context, Direction, DiskUsage, PrefixKind};
use erdtree::count::FileCount;
use erdtree::error::Error;
use erdtree::model::weigh;
use erdtree::node::{Entry, FileSize, FileType, Inode, Node};
use erdtree::tree::Tree;
use indextree::Arena;

fn context() -> Context {
    Context {
        dir: String::from("/a"),
        threads: 1,
        follow_links: false,
        ignore_git_ignore: false,
        hidden: false,
        prune: false,
        dirs_only: false,
        sort: None,
        direction: Direction::Ascending,
        disk_usage: DiskUsage::Logical,
        prefix: PrefixKind::Bin,
        scale: 2,
        level: None,
    }
}

fn entry(path: &str, depth: usize, file_type: FileType, size: Option<u64>) -> Entry {
    let at = path.rfind('/').unwrap();
    Entry {
        path: String::from(path),
        file_name: String::from(&path[at + 1..]),
        parent: if at == 0 { None } else { Some(String::from(&path[..at])) },
        depth,
        file_type,
        size,
        inode: None,
    }
}

#[test]
fn collector_counts_the_bytes_of_what_it_stores() {
    let mut collector = Collector::new(context());
    assert_eq!(collector.bytes(), 0);
    let mut root = entry("/a", 0, FileType::Dir, None);
    root.parent = None;
    collector.accept(root).unwrap();
    assert_eq!(collector.bytes(), 0);
    collector.accept(entry("/a/x", 1, FileType::File, Some(10))).unwrap();
    assert_eq!(collector.bytes(), 10);
    collector.accept(entry("/a/d", 1, FileType::Dir, Some(4096))).unwrap();
    assert_eq!(collector.bytes(), 10);
    collector.accept(entry("/a/l", 1, FileType::Symlink, Some(3))).unwrap();
    assert_eq!(collector.bytes(), 10);
    let mut first = entry("/a/p", 1, FileType::File, Some(8));
    first.inode = Some(Inode::new(1, 1, 3));
    let mut second = entry("/a/q", 1, FileType::File, Some(8));
    second.inode = Some(Inode::new(1, 1, 3));
    collector.accept(first).unwrap();
    assert_eq!(collector.bytes(), 18);
    collector.accept(second).unwrap();
    assert_eq!(collector.bytes(), 18);
    assert_eq!(collector.context().dir, "/a");

    let tree = collector.finish().unwrap();
    let arena = tree.inner();
    let root = tree.root();
    assert_eq!(arena[root].get().file_size().unwrap().bytes, 18);
    let paths: Vec<String> = root
        .children(arena)
        .map(|id| arena[id].get().path().clone())
        .collect();
    assert_eq!(paths, vec!["/a/x", "/a/d", "/a/l", "/a/p"]);
}

#[test]
fn collector_fails_on_an_entry_without_parent() {
    let mut collector = Collector::new(context());
    let taken = collector.accept(entry("/x", 1, FileType::File, Some(1)));
    assert_eq!(taken, Err(Error::ExpectedParent));
}

#[test]
fn collector_without_root_fails_at_the_end() {
    let mut collector = Collector::new(context());
    collector.accept(entry("/a/x", 1, FileType::File, Some(1))).unwrap();
    assert!(matches!(collector.finish(), Err(Error::MissingRoot)));
}

#[test]
fn dropped_directory_link_still_gets_its_list() {
    let mut collector = Collector::new(context());
    let mut root = entry("/a", 0, FileType::Dir, None);
    root.parent = None;
    collector.accept(root).unwrap();
    let mut first = entry("/a/d", 1, FileType::Dir, None);
    first.inode = Some(Inode::new(5, 1, 2));
    let mut second = entry("/a/e", 1, FileType::Dir, None);
    second.inode = Some(Inode::new(5, 1, 2));
    collector.accept(first).unwrap();
    collector.accept(second).unwrap();
    collector.accept(entry("/a/e/f", 2, FileType::File, Some(1))).unwrap();
    let tree = collector.finish().unwrap();
    let arena = tree.inner();
    let paths: Vec<String> = tree
        .root()
        .descendants(arena)
        .map(|id| arena[id].get().path().clone())
        .collect();
    assert_eq!(paths, vec!["/a", "/a/d"]);
}

#[test]
fn error_messages() {
    assert_eq!(Error::ExpectedParent.message(), "File expected to have parent");
    assert_eq!(Error::MissingRoot.message(), "Failed to compute root node");
    assert_eq!(
        Error::MissingBranch.message(),
        "Directory expected to have children recorded"
    );
}

#[test]
fn node_of_an_entry() {
    let ctx = context();
    let mut given = entry("/a/b/c.txt", 2, FileType::File, Some(12));
    given.inode = Some(Inode::new(3, 4, 1));
    let node = Node::new(given, &ctx);
    assert_eq!(node.path(), "/a/b/c.txt");
    assert_eq!(node.file_name(), "c.txt");
    assert_eq!(node.parent_path().map(String::as_str), Some("/a/b"));
    assert_eq!(node.depth(), 2);
    assert_eq!(node.file_type(), FileType::File);
    assert!(!node.is_dir());
    assert!(!node.is_symlink());
    assert_eq!(
        node.file_size(),
        Some(FileSize::new(12, DiskUsage::Logical, PrefixKind::Bin, 2))
    );
    assert_eq!(node.inode(), Some(Inode { ino: 3, dev: 4, nlink: 1 }));

    let mut node = Node::new(entry("/a/d", 1, FileType::Dir, Some(4096)), &ctx);
    assert!(node.is_dir());
    assert_eq!(node.file_size(), None);
    node.set_file_size(FileSize::new(7, DiskUsage::Physical, PrefixKind::Si, 0));
    assert_eq!(node.file_size().unwrap().bytes, 7);
    assert_eq!(node.path(), "/a/d");

    let link = Node::new(entry("/a/l", 1, FileType::Symlink, Some(9)), &ctx);
    assert!(link.is_symlink());
    assert_eq!(link.file_size(), None);
}

#[test]
fn entry_weight() {
    assert_eq!(entry("/a/f", 1, FileType::File, Some(9)).weight(), 9);
    assert_eq!(entry("/a/f", 1, FileType::File, None).weight(), 0);
    assert_eq!(entry("/a/d", 1, FileType::Dir, Some(9)).weight(), 0);
    assert_eq!(entry("/a/l", 1, FileType::Symlink, Some(9)).weight(), 0);
    assert_eq!(entry("/a/o", 1, FileType::Other, Some(9)).weight(), 0);
}

#[test]
fn file_size_adds_bytes_and_keeps_units() {
    let mut size = FileSize::new(5, DiskUsage::Physical, PrefixKind::Si, 1);
    size.add_bytes(7);
    assert_eq!(size, FileSize::new(12, DiskUsage::Physical, PrefixKind::Si, 1));
    size.add_bytes(0);
    assert_eq!(size.bytes, 12);
    let mut other = FileSize::new(0, DiskUsage::Logical, PrefixKind::Bin, 2);
    other.add_bytes(12);
    other.add_bytes(u64::MAX - 12);
    assert_eq!(other.bytes, u64::MAX);
}

#[test]
fn inode_key_tells_devices_and_numbers_apart() {
    assert_eq!(Inode::new(1, 0, 2).key(), 1);
    assert_eq!(Inode::new(0, 1, 2).key(), 1u128 << 64);
    assert_eq!(Inode::new(u64::MAX, u64::MAX, 9).key(), u128::MAX);
    assert_eq!(Inode::new(5, 6, 1).key(), Inode::new(5, 6, 7).key());
    assert_ne!(Inode::new(5, 6, 1).key(), Inode::new(6, 5, 1).key());
}

#[test]
fn branches_keep_lists_by_path() {
    let mut arena: Arena<u8> = Arena::new();
    let one = arena.new_node(1);
    let two = arena.new_node(2);
    let three = arena.new_node(3);
    let mut branches = Branches::new();
    let a = String::from("/a");
    let b = String::from("/a/b");
    assert!(!branches.contains_key("/a"));
    branches.register(&a);
    assert!(branches.contains_key("/a"));
    branches.push(&a, one);
    branches.push(&b, two);
    branches.push(&a, three);
    branches.register(&a);
    assert_eq!(branches.take("/a"), Some(vec![one, three]));
    assert_eq!(branches.take("/a"), None);
    assert!(!branches.contains_key("/a"));
    assert!(branches.contains_key("/a/b"));
    branches.register(&a);
    assert_eq!(branches.take("/a"), Some(vec![]));
    assert_eq!(branches.take("/a/b"), Some(vec![two]));
    assert_eq!(branches.take("/nowhere"), None);
}

#[test]
fn counts_children_by_kind() {
    let ctx = context();
    let entries = vec![
        {
            let mut root = entry("/a", 0, FileType::Dir, None);
            root.parent = None;
            root
        },
        entry("/a/d1", 1, FileType::Dir, None),
        entry("/a/f1", 1, FileType::File, Some(1)),
        entry("/a/l1", 1, FileType::Symlink, None),
        entry("/a/d2", 1, FileType::Dir, None),
        entry("/a/o1", 1, FileType::Other, None),
        entry("/a/f2", 1, FileType::File, Some(1)),
        entry("/a/d1/inner", 2, FileType::File, Some(1)),
    ];
    let tree = Tree::init(ctx, entries).unwrap();
    let count = Tree::compute_file_count(tree.root(), tree.inner());
    assert_eq!(count, FileCount { num_dirs: 2, num_files: 3, num_links: 1 });
    let first = tree.root().children(tree.inner()).next().unwrap();
    let count = Tree::compute_file_count(first, tree.inner());
    assert_eq!(count, FileCount { num_dirs: 0, num_files: 1, num_links: 0 });
    let leaf = first.children(tree.inner()).next().unwrap();
    assert_eq!(Tree::compute_file_count(leaf, tree.inner()), FileCount::new());
}

#[test]
fn file_count_update() {
    let ctx = context();
    let mut count = FileCount::new();
    count.update(&Node::new(entry("/a/d", 1, FileType::Dir, None), &ctx));
    count.update(&Node::new(entry("/a/f", 1, FileType::File, None), &ctx));
    count.update(&Node::new(entry("/a/o", 1, FileType::Other, None), &ctx));
    count.update(&Node::new(entry("/a/l", 1, FileType::Symlink, None), &ctx));
    assert_eq!(count, FileCount { num_dirs: 1, num_files: 2, num_links: 1 });
}

#[test]
fn weigh_adds_up_the_files() {
    assert_eq!(weigh(&vec![]), Some(0));
    let entries = vec![
        entry("/a", 0, FileType::Dir, Some(4096)),
        entry("/a/x", 1, FileType::File, Some(10)),
        entry("/a/l", 1, FileType::Symlink, Some(3)),
        entry("/a/y", 1, FileType::File, Some(5)),
        entry("/a/z", 1, FileType::File, None),
    ];
    assert_eq!(weigh(&entries), Some(15));
    let entries = vec![
        entry("/a/x", 1, FileType::File, Some(u64::MAX - 1)),
        entry("/a/y", 1, FileType::File, Some(1)),
    ];
    assert_eq!(weigh(&entries), Some(u64::MAX));
    let entries = vec![
        entry("/a/x", 1, FileType::File, Some(u64::MAX)),
        entry("/a/y", 1, FileType::File, Some(1)),
        entry("/a/z", 1, FileType::File, Some(1)),
    ];
    assert_eq!(weigh(&entries), None);
}
