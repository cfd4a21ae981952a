use erdtree::context::{Context, Direction, DiskUsage, PrefixKind, SortKey};
use erdtree::node::{Entry, FileType, Node};
use erdtree::order::{bytes_precede, node_precedes};
use erdtree::sort::sort_children;
use erdtree::tree::Tree;
use indextree::Arena;

fn context(sort: Option<SortKey>, direction: Direction) -> Context {
    Context {
        dir: String::from("/a"),
        threads: 1,
        follow_links: false,
        ignore_git_ignore: false,
        hidden: false,
        prune: false,
        dirs_only: false,
        sort,
        direction,
        disk_usage: DiskUsage::Logical,
        prefix: PrefixKind::Bin,
        scale: 2,
        level: None,
    }
}

fn entry(parent: &str, name: &str, file_type: FileType, size: Option<u64>) -> Entry {
    Entry {
        path: format!("{parent}/{name}"),
        file_name: String::from(name),
        parent: Some(String::from(parent)),
        depth: parent.matches('/').count(),
        file_type,
        size,
        inode: None,
    }
}

fn root() -> Entry {
    Entry {
        path: String::from("/a"),
        file_name: String::from("a"),
        parent: Some(String::from("/")),
        depth: 0,
        file_type: FileType::Dir,
        size: None,
        inode: None,
    }
}

fn file(name: &str, size: u64) -> Entry {
    entry("/a", name, FileType::File, Some(size))
}

fn dir(name: &str) -> Entry {
    entry("/a", name, FileType::Dir, None)
}

/// The names of the children of the root, in their order.
fn names(tree: &Tree) -> Vec<String> {
    let arena = tree.inner();
    tree.root()
        .children(arena)
        .map(|id| arena[id].get().file_name().clone())
        .collect()
}

fn sorted(sort: Option<SortKey>, direction: Direction, entries: Vec<Entry>) -> Vec<String> {
    let mut all = vec![root()];
    all.extend(entries);
    names(&Tree::init(context(sort, direction), all).unwrap())
}

#[test]
fn without_a_key_the_order_of_arrival_stays() {
    let got = sorted(
        None,
        Direction::Ascending,
        vec![file("m", 1), file("z", 2), file("a", 3)],
    );
    assert_eq!(got, vec!["m", "z", "a"]);
}

#[test]
fn by_name_ascending() {
    let got = sorted(
        Some(SortKey::Name),
        Direction::Ascending,
        vec![file("m", 1), dir("z"), file("a", 3), file("B", 3), file("ab", 1)],
    );
    assert_eq!(got, vec!["B", "a", "ab", "m", "z"]);
}

#[test]
fn by_name_descending() {
    let got = sorted(
        Some(SortKey::Name),
        Direction::Descending,
        vec![file("m", 1), dir("z"), file("a", 3), file("B", 3), file("ab", 1)],
    );
    assert_eq!(got, vec!["z", "m", "ab", "a", "B"]);
}

#[test]
fn by_name_goes_by_bytes() {
    let got = sorted(
        Some(SortKey::Name),
        Direction::Ascending,
        vec![file("é", 1), file("z", 1), file("e", 1), file("", 1), file("€", 1)],
    );
    assert_eq!(got, vec!["", "e", "z", "é", "€"]);
}

#[test]
fn by_size_ascending_counts_directories_by_their_sum() {
    let mut entries = vec![file("five", 5), dir("seven"), file("one", 1), dir("none")];
    entries.push(entry("/a/seven", "x", FileType::File, Some(3)));
    entries.push(entry("/a/seven", "y", FileType::File, Some(4)));
    let got = sorted(Some(SortKey::Size), Direction::Ascending, entries);
    assert_eq!(got, vec!["none", "one", "five", "seven"]);
}

#[test]
fn by_size_descending() {
    let got = sorted(
        Some(SortKey::Size),
        Direction::Descending,
        vec![file("five", 5), file("nine", 9), file("one", 1)],
    );
    assert_eq!(got, vec!["nine", "five", "one"]);
}

#[test]
fn by_size_is_stable() {
    let entries = vec![
        file("c", 2),
        file("a", 1),
        file("b", 2),
        file("e", 1),
        file("d", 2),
        entry("/a", "link", FileType::Symlink, None),
        file("zero", 0),
    ];
    let got = sorted(Some(SortKey::Size), Direction::Ascending, entries.clone());
    assert_eq!(got, vec!["link", "zero", "a", "e", "c", "b", "d"]);
    let got = sorted(Some(SortKey::Size), Direction::Descending, entries);
    assert_eq!(got, vec!["c", "b", "d", "a", "e", "link", "zero"]);
}

#[test]
fn by_name_is_stable() {
    let mut first = file("same", 1);
    first.path = String::from("/a/same-1");
    let mut second = file("same", 2);
    second.path = String::from("/a/same-2");
    let mut third = file("same", 3);
    third.path = String::from("/a/same-3");
    let tree = Tree::init(
        context(Some(SortKey::Name), Direction::Ascending),
        vec![root(), file("z", 0), first, second, file("a", 0), third],
    )
    .unwrap();
    let arena = tree.inner();
    let paths: Vec<String> = tree
        .root()
        .children(arena)
        .map(|id| arena[id].get().path().clone())
        .collect();
    assert_eq!(
        paths,
        vec!["/a/a", "/a/same-1", "/a/same-2", "/a/same-3", "/a/z"]
    );
}

#[test]
fn by_kind_puts_directories_first_then_goes_by_name() {
    let entries = vec![
        file("b", 1),
        dir("y"),
        entry("/a", "l", FileType::Symlink, None),
        dir("c"),
        file("a", 1),
    ];
    let got = sorted(Some(SortKey::Kind), Direction::Ascending, entries.clone());
    assert_eq!(got, vec!["c", "y", "a", "b", "l"]);
    let got = sorted(Some(SortKey::Kind), Direction::Descending, entries);
    assert_eq!(got, vec!["l", "b", "a", "y", "c"]);
}

#[test]
fn every_level_is_sorted() {
    let entries = vec![
        dir("d"),
        entry("/a/d", "z", FileType::File, Some(1)),
        entry("/a/d", "m", FileType::Dir, None),
        entry("/a/d/m", "q", FileType::File, Some(1)),
        entry("/a/d/m", "p", FileType::File, Some(1)),
        entry("/a/d", "a", FileType::File, Some(1)),
        file("c", 1),
    ];
    let mut all = vec![root()];
    all.extend(entries);
    let tree = Tree::init(context(Some(SortKey::Name), Direction::Ascending), all).unwrap();
    let arena = tree.inner();
    let paths: Vec<String> = tree
        .root()
        .descendants(arena)
        .map(|id| arena[id].get().path().clone())
        .collect();
    assert_eq!(
        paths,
        vec!["/a", "/a/c", "/a/d", "/a/d/a", "/a/d/m", "/a/d/m/p", "/a/d/m/q", "/a/d/z"]
    );
}

#[test]
fn sort_children_orders_handles_by_their_nodes() {
    let ctx = context(None, Direction::Ascending);
    let mut arena = Arena::new();
    let sizes = [5u64, 3, 9, 3, 1];
    let ids: Vec<_> = sizes
        .iter()
        .enumerate()
        .map(|(i, size)| arena.new_node(Node::new(file(&format!("f{i}"), *size), &ctx)))
        .collect();
    let got = sort_children(&arena, ids.clone(), SortKey::Size, Direction::Ascending);
    assert_eq!(got, vec![ids[4], ids[1], ids[3], ids[0], ids[2]]);
    let got = sort_children(&arena, ids.clone(), SortKey::Size, Direction::Descending);
    assert_eq!(got, vec![ids[2], ids[0], ids[1], ids[3], ids[4]]);
    let got = sort_children(&arena, Vec::new(), SortKey::Name, Direction::Ascending);
    assert!(got.is_empty());
}

#[test]
fn bytes_precede_is_the_dictionary_order() {
    assert!(bytes_precede(b"", b"a"));
    assert!(!bytes_precede(b"", b""));
    assert!(!bytes_precede(b"a", b""));
    assert!(bytes_precede(b"a", b"b"));
    assert!(!bytes_precede(b"b", b"a"));
    assert!(bytes_precede(b"ab", b"abc"));
    assert!(!bytes_precede(b"abc", b"ab"));
    assert!(!bytes_precede(b"abc", b"abc"));
    assert!(bytes_precede(b"abc", b"abd"));
    assert!(bytes_precede(b"Z", b"a"));
    assert!(bytes_precede(&[0x7f], &[0x80]));
}

#[test]
fn node_precedes_in_both_directions() {
    let ctx = context(None, Direction::Ascending);
    let small = Node::new(file("b", 1), &ctx);
    let large = Node::new(file("a", 2), &ctx);
    let folder = Node::new(dir("z"), &ctx);
    assert!(node_precedes(SortKey::Size, Direction::Ascending, &small, &large));
    assert!(!node_precedes(SortKey::Size, Direction::Ascending, &large, &small));
    assert!(node_precedes(SortKey::Size, Direction::Descending, &large, &small));
    assert!(!node_precedes(SortKey::Size, Direction::Ascending, &small, &small));
    assert!(node_precedes(SortKey::Name, Direction::Ascending, &large, &small));
    assert!(node_precedes(SortKey::Name, Direction::Descending, &small, &large));
    assert!(node_precedes(SortKey::Kind, Direction::Ascending, &folder, &large));
    assert!(!node_precedes(SortKey::Kind, Direction::Ascending, &large, &folder));
    assert!(node_precedes(SortKey::Kind, Direction::Ascending, &large, &small));
    assert!(node_precedes(SortKey::Size, Direction::Ascending, &folder, &small));
}
